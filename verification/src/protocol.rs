//! The JSON-RPC methods the server answers. Building and parsing the JSON
//! messages is left to the caller; this module decides what a method asks
//! for.

use vstd::prelude::*;
use vstd::string::*;

use crate::text::str_equal;

verus! {

/// The MCP protocol version the server speaks.
pub const PROTOCOL_VERSION: &'static str = "2024-11-05";

/// JSON-RPC error code for a method the server does not know.
pub const METHOD_NOT_FOUND: i64 = -32601;

/// JSON-RPC error code for a message that is not valid JSON.
pub const PARSE_ERROR: i64 = -32700;

/// What a JSON-RPC method asks of the server.
#[derive(Debug, Clone, Copy, PartialEq, Eq, Structural)]
pub enum Route {
    /// `initialize`: the protocol version, capabilities and server name.
    Initialize,
    /// `tools/list`: the advertised tools.
    ListTools,
    /// `tools/call`: run a tool.
    CallTool,
    /// `ping`: an empty result.
    Ping,
    /// Any other method: an error when the message has an id, and nothing
    /// for a notification.
    Unknown,
}

/// The route of the method named `m`.
pub open spec fn route_of(m: Seq<char>) -> Route {
    if m == "initialize"@ {
        Route::Initialize
    } else if m == "tools/list"@ {
        Route::ListTools
    } else if m == "tools/call"@ {
        Route::CallTool
    } else if m == "ping"@ {
        Route::Ping
    } else {
        Route::Unknown
    }
}

/// What the method `method` asks of the server.
pub fn route(method: &str) -> (r: Route)
    ensures
        r == route_of(method@),
{
    if str_equal(method, "initialize") {
        Route::Initialize
    } else if str_equal(method, "tools/list") {
        Route::ListTools
    } else if str_equal(method, "tools/call") {
        Route::CallTool
    } else if str_equal(method, "ping") {
        Route::Ping
    } else {
        Route::Unknown
    }
}

/// How a message is answered.
#[derive(Debug, Clone, Copy, PartialEq, Eq, Structural)]
pub enum Answer {
    /// No reply at all: the message is a notification.
    Silent,
    /// A result.
    Reply,
    /// A result that carries the tool's error text and is flagged
    /// `isError`, so the model sees what went wrong and can correct itself;
    /// not a protocol error.
    ToolFailure,
    /// A protocol error with code [`METHOD_NOT_FOUND`].
    MethodNotFound,
}

/// How a message whose method takes `route` is answered: a message without
/// an id is a notification and gets no reply, even when it was handled; an
/// unknown method is an error; a tool that failed answers with its error
/// as a result.
pub open spec fn answer_of(route: Route, has_id: bool, tool_failed: bool) -> Answer {
    if !has_id {
        Answer::Silent
    } else if route == Route::Unknown {
        Answer::MethodNotFound
    } else if route == Route::CallTool && tool_failed {
        Answer::ToolFailure
    } else {
        Answer::Reply
    }
}

/// How to answer a message whose method takes `route`, which carries an id
/// when `has_id`, and whose tool, for `tools/call`, failed when
/// `tool_failed`.
pub fn answer(route: Route, has_id: bool, tool_failed: bool) -> (r: Answer)
    ensures
        r == answer_of(route, has_id, tool_failed),
{
    if !has_id {
        Answer::Silent
    } else {
        match route {
            Route::Unknown => Answer::MethodNotFound,
            Route::CallTool => if tool_failed {
                Answer::ToolFailure
            } else {
                Answer::Reply
            },
            _ => Answer::Reply,
        }
    }
}

} // verus!
