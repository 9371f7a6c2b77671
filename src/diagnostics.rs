//! Diagnostics bookkeeping: filtering a list by a line range, and reading
//! a workspace-wide report in either of its two shapes.

use vstd::prelude::*;
use crate::json::{as_u64, as_u64_spec, field, get_field, lookup, take_field, find_field, JsonValue};
use crate::table::{entry_map, has_key, index_of, insert_entry, keys_unique};

verus! {

/// The line a position object names, when it is a non-negative integer.
pub open spec fn position_line(p: JsonValue) -> Option<u64> {
    match field(p, "line"@) {
        Some(l) => as_u64_spec(l),
        None => None,
    }
}

/// The first and last line of a diagnostic, if it has a well-formed
/// `range`: a `start` and an `end` that both name a line.
pub open spec fn diagnostic_lines(d: JsonValue) -> Option<(u64, u64)> {
    match field(d, "range"@) {
        Some(range) => match (field(range, "start"@), field(range, "end"@)) {
            (Some(s), Some(e)) => match (position_line(s), position_line(e)) {
                (Some(a), Some(b)) => Some((a, b)),
                _ => None,
            },
            _ => None,
        },
        None => None,
    }
}

/// The diagnostic's lines meet the query's, both ends included.
pub open spec fn overlaps_lines(d: JsonValue, start_line: u32, end_line: u32) -> bool {
    match diagnostic_lines(d) {
        Some((s, e)) => s <= end_line as u64 && e >= start_line as u64,
        None => false,
    }
}

/// The diagnostics that meet the query's lines, in their order.
pub open spec fn in_range(ds: Seq<JsonValue>, start_line: u32, end_line: u32) -> Seq<JsonValue>
    decreases ds.len(),
{
    if ds.len() == 0 {
        Seq::empty()
    } else {
        let kept = in_range(ds.drop_last(), start_line, end_line);
        if overlaps_lines(ds.last(), start_line, end_line) {
            kept.push(ds.last())
        } else {
            kept
        }
    }
}

fn position_line_of(p: &JsonValue) -> (r: Option<u64>)
    ensures
        r == position_line(*p),
{
    match get_field(p, "line") {
        Some(l) => as_u64(l),
        None => None,
    }
}

fn diagnostic_lines_of(d: &JsonValue) -> (r: Option<(u64, u64)>)
    ensures
        r == diagnostic_lines(*d),
{
    let range = match get_field(d, "range") {
        Some(range) => range,
        None => return None,
    };
    let start = match get_field(range, "start") {
        Some(start) => start,
        None => return None,
    };
    let end = match get_field(range, "end") {
        Some(end) => end,
        None => return None,
    };
    match (position_line_of(start), position_line_of(end)) {
        (Some(a), Some(b)) => Some((a, b)),
        _ => None,
    }
}

/// Keeps the diagnostics whose lines meet `start_line..=end_line`; one
/// without a well-formed range (a `start` and an `end`, each with a
/// non-negative integer `line`) is dropped. Anything but a list gives an
/// empty list.
pub fn filter_diagnostics_in_range(diagnostics: JsonValue, start_line: u32, end_line: u32) -> (r: JsonValue)
    ensures
        match diagnostics {
            JsonValue::Array(ds) => r matches JsonValue::Array(kept) && kept@ == in_range(
                ds@,
                start_line,
                end_line,
            ),
            _ => r matches JsonValue::Array(kept) && kept@.len() == 0,
        },
{
    let mut items = match diagnostics {
        JsonValue::Array(ds) => ds,
        _ => return JsonValue::Array(Vec::new()),
    };
    let ghost all = items@;
    let mut kept: Vec<JsonValue> = Vec::new();
    let mut i: usize = 0;
    let n = items.len();
    assert(all.take(0) =~= Seq::<JsonValue>::empty());
    assert(all.skip(0) =~= all);
    while i < n
        invariant
            n == all.len(),
            i <= n,
            items@ == all.skip(i as int),
            kept@ == in_range(all.take(i as int), start_line, end_line),
        decreases n - i,
    {
        let d = items.remove(0);
        assert(all.take(i + 1 as int).drop_last() =~= all.take(i as int));
        assert(items@ =~= all.skip(i + 1 as int));
        let keep = match diagnostic_lines_of(&d) {
            Some((s, e)) => s <= end_line as u64 && e >= start_line as u64,
            None => false,
        };
        if keep {
            kept.push(d);
        }
        i += 1;
    }
    assert(all.take(n as int) =~= all);
    JsonValue::Array(kept)
}

/// The diagnostics a JSON list holds; nothing for any other value.
pub open spec fn array_items(v: JsonValue) -> Seq<JsonValue> {
    match v {
        JsonValue::Array(a) => a@,
        _ => Seq::empty(),
    }
}

/// An object whose fields all hold lists, read as a map from uri to list.
pub open spec fn object_arrays(fields: Seq<(String, JsonValue)>) -> Map<Seq<char>, Seq<JsonValue>> {
    entry_map(fields).map_values(|v: JsonValue| array_items(v))
}

pub open spec fn all_arrays(fields: Seq<(String, JsonValue)>) -> bool {
    forall|i: int| 0 <= i < fields.len() ==> (#[trigger] fields[i]).1 is Array
}

/// One entry of a report in list shape: its uri and its list, found under
/// `items` or else `diagnostics` (an empty list when both are missing).
/// An entry without a string uri, or whose list is no list, counts for
/// nothing.
pub open spec fn report_entry(item: JsonValue) -> Option<(Seq<char>, Seq<JsonValue>)> {
    match field(item, "uri"@) {
        Some(JsonValue::Str(u)) => {
            let d = match field(item, "items"@) {
                Some(x) => Some(x),
                None => field(item, "diagnostics"@),
            };
            match d {
                None => Some((u@, Seq::empty())),
                Some(JsonValue::Array(a)) => Some((u@, a@)),
                Some(_) => None,
            }
        },
        _ => None,
    }
}

/// The map that a list of report entries describes; a later entry for the
/// same uri replaces an earlier one.
pub open spec fn report_mapping(items: Seq<JsonValue>) -> Map<Seq<char>, Seq<JsonValue>>
    decreases items.len(),
{
    if items.len() == 0 {
        Map::empty()
    } else {
        let m = report_mapping(items.drop_last());
        match report_entry(items.last()) {
            Some((u, d)) => m.insert(u, d),
            None => m,
        }
    }
}

/// The response holds its entries as a list under `items`.
pub open spec fn list_shaped(response: JsonValue) -> bool {
    match response {
        JsonValue::Object(fields) => lookup(fields@, "items"@) matches Some(JsonValue::Array(_)),
        _ => false,
    }
}

fn report_entry_of(item: JsonValue) -> (r: Option<(String, JsonValue)>)
    ensures
        match report_entry(item) {
            Some((u, d)) => r matches Some((ru, rd)) && ru@ == u && rd is Array && array_items(rd) == d,
            None => r is None,
        },
{
    proof {
        reveal_strlit("uri");
        reveal_strlit("items");
        reveal_strlit("diagnostics");
        assert("uri"@ != "items"@) by {
            assert("uri"@.len() != "items"@.len());
        }
        assert("uri"@ != "diagnostics"@) by {
            assert("uri"@.len() != "diagnostics"@.len());
        }
        assert("items"@ != "diagnostics"@) by {
            assert("items"@.len() != "diagnostics"@.len());
        }
    }
    let mut fields = match item {
        JsonValue::Object(fields) => fields,
        _ => return None,
    };
    let uri = match take_field(&mut fields, "uri") {
        Some(JsonValue::Str(u)) => u,
        _ => return None,
    };
    let list = match take_field(&mut fields, "items") {
        Some(x) => Some(x),
        None => take_field(&mut fields, "diagnostics"),
    };
    match list {
        None => Some((uri, JsonValue::Array(Vec::new()))),
        Some(JsonValue::Array(a)) => Some((uri, JsonValue::Array(a))),
        Some(_) => None,
    }
}

fn fields_all_arrays(fields: &Vec<(String, JsonValue)>) -> (r: bool)
    ensures
        r == all_arrays(fields@),
{
    let mut i: usize = 0;
    while i < fields.len()
        invariant
            i <= fields@.len(),
            forall|j: int| 0 <= j < i ==> (#[trigger] fields@[j]).1 is Array,
        decreases fields@.len() - i,
    {
        match &fields[i].1 {
            JsonValue::Array(_) => {},
            _ => return false,
        }
        i += 1;
    }
    true
}

/// Reads a workspace diagnostics report into a map from uri to list. A
/// list of `{uri, items}` entries is gathered into a new object; an
/// object whose fields all hold lists is already that map. Anything else
/// is not understood.
pub fn normalize_workspace_diagnostic_report(response: JsonValue) -> (r: Option<JsonValue>)
    ensures
        match response {
            JsonValue::Object(fields) => if list_shaped(response) {
                r matches Some(JsonValue::Object(out)) && keys_unique(out@) && object_arrays(out@)
                    == report_mapping(array_items(lookup(fields@, "items"@)->Some_0))
                    && (forall|k: Seq<char>| #[trigger] entry_map(out@).contains_key(k) ==> entry_map(out@)[k] is Array)
            } else if all_arrays(fields@) {
                r == Some(response)
            } else {
                r is None
            },
            _ => r is None,
        },
        r is Some <==> normalized_mapping(response) is Some,
        r matches Some(JsonValue::Object(out)) ==> normalized_mapping(response) == Some(object_arrays(out@)),
{
    let fields = match response {
        JsonValue::Object(fields) => fields,
        _ => return None,
    };
    let at = find_field(&fields, "items");
    let is_list = match at {
        Some(i) => match &fields[i].1 {
            JsonValue::Array(_) => true,
            _ => false,
        },
        None => false,
    };
    if !is_list {
        if fields_all_arrays(&fields) {
            return Some(JsonValue::Object(fields));
        }
        return None;
    }
    let mut fields = fields;
    let mut items = match take_field(&mut fields, "items") {
        Some(JsonValue::Array(a)) => a,
        _ => return None,
    };
    let ghost all = items@;
    let mut out: Vec<(String, JsonValue)> = Vec::new();
    let n = items.len();
    let mut i: usize = 0;
    assert(all.take(0) =~= Seq::<JsonValue>::empty());
    assert(all.skip(0) =~= all);
    assert(object_arrays(out@) =~= Map::<Seq<char>, Seq<JsonValue>>::empty());
    while i < n
        invariant
            n == all.len(),
            i <= n,
            items@ == all.skip(i as int),
            keys_unique(out@),
            object_arrays(out@) == report_mapping(all.take(i as int)),
            forall|k: Seq<char>| #[trigger] entry_map(out@).contains_key(k) ==> entry_map(out@)[k] is Array,
        decreases n - i,
    {
        let item = items.remove(0);
        assert(all.take(i + 1 as int).drop_last() =~= all.take(i as int));
        assert(items@ =~= all.skip(i + 1 as int));
        match report_entry_of(item) {
            Some((uri, list)) => {
                let ghost before = out@;
                let ghost u = uri@;
                let ghost d = array_items(list);
                insert_entry(&mut out, uri, list);
                assert(object_arrays(out@) =~= object_arrays(before).insert(u, d));
            },
            None => {},
        }
        i += 1;
    }
    assert(all.take(n as int) =~= all);
    Some(JsonValue::Object(out))
}

/// The map a workspace report describes, in either shape; `None` when it
/// has neither.
pub open spec fn normalized_mapping(response: JsonValue) -> Option<Map<Seq<char>, Seq<JsonValue>>> {
    match response {
        JsonValue::Object(fields) => if list_shaped(response) {
            Some(report_mapping(array_items(lookup(fields@, "items"@)->Some_0)))
        } else if all_arrays(fields@) {
            Some(object_arrays(fields@))
        } else {
            None
        },
        _ => None,
    }
}

/// A report given as a list of `{uri, items}` entries and one given as a
/// map from uri to list normalise to the same map when they hold the same
/// content.
pub proof fn lemma_report_shapes_agree(list_report: JsonValue, map_report: JsonValue)
    requires
        list_shaped(list_report),
        map_report matches JsonValue::Object(fields) && all_arrays(fields@) && !list_shaped(map_report)
            && report_mapping(array_items(field(list_report, "items"@)->Some_0)) == object_arrays(fields@),
    ensures
        normalized_mapping(list_report) is Some,
        normalized_mapping(list_report) == normalized_mapping(map_report),
{
}

/// The range filter keeps exactly the diagnostics whose lines meet the
/// query, both ends included; one without a well-formed range never stays.
pub proof fn lemma_in_range_members(ds: Seq<JsonValue>, start_line: u32, end_line: u32)
    ensures
        forall|d: JsonValue| #[trigger] in_range(ds, start_line, end_line).contains(d) <==> (ds.contains(d)
            && overlaps_lines(d, start_line, end_line)),
        forall|d: JsonValue| diagnostic_lines(d) is None ==> !(#[trigger] in_range(ds, start_line, end_line).contains(d)),
    decreases ds.len(),
{
    if ds.len() > 0 {
        let init = ds.drop_last();
        lemma_in_range_members(init, start_line, end_line);
        assert(ds =~= init.push(ds.last()));
        let kept = in_range(init, start_line, end_line);
        assert forall|d: JsonValue| #[trigger] in_range(ds, start_line, end_line).contains(d) <==> (ds.contains(d)
            && overlaps_lines(d, start_line, end_line)) by {
            lemma_push_contains(init, ds.last(), d);
            lemma_push_contains(kept, ds.last(), d);
        }
    }
}

proof fn lemma_push_contains(s: Seq<JsonValue>, x: JsonValue, d: JsonValue)
    ensures
        s.push(x).contains(d) <==> (s.contains(d) || d == x),
{
    if s.contains(d) {
        let i = choose|i: int| 0 <= i < s.len() && s[i] == d;
        assert(s.push(x)[i] == d);
    }
    if d == x {
        assert(s.push(x)[s.len() as int] == d);
    }
    if s.push(x).contains(d) && d != x {
        let i = choose|i: int| 0 <= i < s.push(x).len() && s.push(x)[i] == d;
        assert(s[i] == d);
    }
}

/// The next step of a workspace-wide diagnostics request.
pub enum WorkspacePullStep {
    /// Ask the backend for the workspace report.
    SendPull,
    /// The backend's report, read into a map from uri to list.
    Return(JsonValue),
    /// Open the workspace's sources once, so that the backend pushes.
    Sweep,
    /// Answer with what the push cache holds.
    ReturnStored,
}

/// Decides the next step of a workspace-wide diagnostics request.
/// `pulled` is `None` before the pull was sent, `Some(None)` when it
/// failed, and `Some(Some(report))` when it answered. A pull is made only
/// when the backend supports it; a report that cannot be read, a failed
/// pull, or no support fall back to the push cache, which, when empty,
/// is filled by one sweep and then read whatever it holds.
pub fn workspace_pull_step(supported: bool, pulled: Option<Option<JsonValue>>, store_empty: bool, swept: bool) -> (r: WorkspacePullStep)
    ensures
        swept ==> r is ReturnStored,
        !swept && (pulled matches Some(Some(resp)) && normalized_mapping(resp) is Some) ==> (r matches WorkspacePullStep::Return(JsonValue::Object(out)) && normalized_mapping(pulled->Some_0->Some_0) == Some(object_arrays(out@))),
        !swept && supported && pulled is None ==> r is SendPull,
        !swept && !(supported && pulled is None) && !(pulled matches Some(Some(resp)) && normalized_mapping(resp) is Some) ==> (if store_empty {
            r is Sweep
        } else {
            r is ReturnStored
        }),
{
    if swept {
        return WorkspacePullStep::ReturnStored;
    }
    match pulled {
        None => if supported {
            return WorkspacePullStep::SendPull;
        },
        Some(None) => {},
        Some(Some(resp)) => match normalize_workspace_diagnostic_report(resp) {
            Some(JsonValue::Object(out)) => return WorkspacePullStep::Return(JsonValue::Object(out)),
            Some(other) => return WorkspacePullStep::Return(other),
            None => {},
        },
    }
    if store_empty {
        WorkspacePullStep::Sweep
    } else {
        WorkspacePullStep::ReturnStored
    }
}

proof fn lemma_entry_map_push(s: Seq<(String, JsonValue)>, e: (String, JsonValue))
    requires
        keys_unique(s.push(e)),
    ensures
        entry_map(s.push(e)) == entry_map(s).insert(e.0@, e.1),
{
    let t = s.push(e);
    let n = s.len() as int;
    assert(t[n] == e);
    assert(has_key(t, e.0@));
    assert(index_of(t, e.0@) == n) by {
        let j = index_of(t, e.0@);
        assert(t[j].0@ == t[n].0@);
    }
    assert forall|k: Seq<char>| k != e.0@ implies (has_key(t, k) <==> has_key(s, k)) by {
        if has_key(s, k) {
            let j = choose|j: int| 0 <= j < s.len() && (#[trigger] s[j]).0@ == k;
            assert(t[j] == s[j]);
        }
        if has_key(t, k) {
            let j = choose|j: int| 0 <= j < t.len() && (#[trigger] t[j]).0@ == k;
            assert(j != n);
            assert(t[j] == s[j]);
        }
    }
    assert forall|k: Seq<char>| k != e.0@ && has_key(s, k) implies t[index_of(t, k)].1 == s[index_of(s, k)].1 by {
        let a = index_of(t, k);
        let b = index_of(s, k);
        assert(t[b] == s[b]);
        assert(a != n);
        assert(t[a] == s[a]);
        assert(a == b) by {
            if a != b {
                assert(t[a].0@ == t[b].0@);
            }
        }
    }
    assert(entry_map(t) =~= entry_map(s).insert(e.0@, e.1));
}

proof fn lemma_list_matches_map(items: Seq<JsonValue>, fields: Seq<(String, JsonValue)>, n: int)
    requires
        0 <= n <= items.len(),
        items.len() == fields.len(),
        keys_unique(fields),
        forall|i: int| 0 <= i < items.len() ==> #[trigger] report_entry(items[i]) == Some(
            (fields[i].0@, array_items(fields[i].1)),
        ),
    ensures
        report_mapping(items.take(n)) == object_arrays(fields.take(n)),
    decreases n,
{
    if n == 0 {
        assert(object_arrays(fields.take(0)) =~= Map::<Seq<char>, Seq<JsonValue>>::empty());
    } else {
        lemma_list_matches_map(items, fields, n - 1);
        assert(items.take(n).drop_last() =~= items.take(n - 1));
        assert(items.take(n).last() == items[n - 1]);
        assert(fields.take(n) =~= fields.take(n - 1).push(fields[n - 1]));
        assert forall|a: int, b: int| 0 <= a < n && 0 <= b < n && a != b implies (#[trigger] fields.take(n)[a]).0@ != (#[trigger] fields.take(n)[b]).0@ by {
            assert(fields[a].0@ != fields[b].0@);
        }
        lemma_entry_map_push(fields.take(n - 1), fields[n - 1]);
        assert(object_arrays(fields.take(n)) =~= object_arrays(fields.take(n - 1)).insert(
            fields[n - 1].0@,
            array_items(fields[n - 1].1),
        ));
    }
}

/// A report given as a list whose i-th entry carries the i-th uri and
/// list of a map-shaped report with distinct uris normalises to the same
/// map as that report.
pub proof fn lemma_list_report_equals_map_report(list_report: JsonValue, map_report: JsonValue)
    requires
        list_shaped(list_report),
        map_report matches JsonValue::Object(fields) && all_arrays(fields@) && !list_shaped(map_report)
            && keys_unique(fields@) && ({
            let items = array_items(field(list_report, "items"@)->Some_0);
            &&& items.len() == fields@.len()
            &&& forall|i: int| 0 <= i < items.len() ==> #[trigger] report_entry(items[i]) == Some(
                (fields@[i].0@, array_items(fields@[i].1)),
            )
        }),
    ensures
        normalized_mapping(list_report) is Some,
        normalized_mapping(list_report) == normalized_mapping(map_report),
{
    let fields = map_report->Object_0@;
    let items = array_items(field(list_report, "items"@)->Some_0);
    lemma_list_matches_map(items, fields, items.len() as int);
    assert(items.take(items.len() as int) =~= items);
    assert(fields.take(fields.len() as int) =~= fields);
}

} // verus!
