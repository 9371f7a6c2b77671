//! Routing of caller requests by method name, and the error codes the
//! caller-facing protocol reserves.

use vstd::prelude::*;

verus! {

/// `method not found`: the request names no method this bridge serves.
pub const METHOD_NOT_FOUND: i64 = -32601;

/// `invalid params`: a tool call without parameters or without a tool name.
pub const INVALID_PARAMS: i64 = -32602;

/// A tool that failed while it ran.
pub const TOOL_FAILED: i64 = -1;

/// The handler a request goes to.
#[derive(Debug, Clone, Copy, PartialEq, Eq, Structural)]
pub enum RequestRoute {
    Initialize,
    Ping,
    ToolsList,
    ToolsCall,
    NotFound,
}

pub open spec fn route_of(method: Seq<char>) -> RequestRoute {
    if method == "initialize"@ {
        RequestRoute::Initialize
    } else if method == "ping"@ {
        RequestRoute::Ping
    } else if method == "tools/list"@ {
        RequestRoute::ToolsList
    } else if method == "tools/call"@ {
        RequestRoute::ToolsCall
    } else {
        RequestRoute::NotFound
    }
}

/// Picks the handler for `method`.
pub fn route_method(method: &str) -> (r: RequestRoute)
    ensures
        r == route_of(method@),
{
    let m = method.to_owned();
    if m == "initialize".to_owned() {
        RequestRoute::Initialize
    } else if m == "ping".to_owned() {
        RequestRoute::Ping
    } else if m == "tools/list".to_owned() {
        RequestRoute::ToolsList
    } else if m == "tools/call".to_owned() {
        RequestRoute::ToolsCall
    } else {
        RequestRoute::NotFound
    }
}

} // verus!
