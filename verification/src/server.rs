//! What the server answers, and what it does to answer.
use crate::config::{
    apply_initialize_config, copy_embedder, copy_texts, option_view, overridden, result_view,
    sent_settings, texts_view, Config, ConfigView, Decoded, EmbedderConfig, EmbedderView,
    Surroundings,
};
use crate::content::{content_path, path_of_content};
use crate::hashing::{content_hash, hash_content};
use crate::indexer::IndexConfig;
use crate::jobs::{removal, remove_source, Job, JobView, Outcome, Removal};
use crate::json::{
    as_text, as_unsigned, copy_json, field, get, get_text, get_unsigned, items_view,
    lemma_list_view, number_value, text_items, text_list, text_value, unsigned, Json, JsonView,
};
use crate::json_text::{json_parsed, json_written, parse_json, write_json};
use crate::paths::{join_path, joined_path};
use crate::protocol::{failure, success, tool_error, tool_failure, Request, Response, ResponseView};
use crate::schema::{
    config_rules, config_schema, described, described_value, typed, typed_value,
};
use crate::sorting::views;
use crate::text::{
    blank, concat, decimal, is_blank, push_decimal, same_text, texts,
};
use crate::types::{copy_text, text_view};
use vstd::prelude::*;

verus! {

// ---------------------------------------------------------------------------
// Requests
// ---------------------------------------------------------------------------

/// What a request asks for.
#[derive(Debug)]
pub enum Route {
    Initialize,
    ListTools,
    CallTool { name: String, arguments: Json, meta: Json },
    ListResources,
    ReadResource,
    UpdateContent,
    DeleteContent,
    ListContent,
}

/// What a request asks for, as a mathematical value.
#[verifier::ext_equal]
pub enum RouteView {
    Initialize,
    ListTools,
    CallTool { name: Seq<char>, arguments: JsonView, meta: JsonView },
    ListResources,
    ReadResource,
    UpdateContent,
    DeleteContent,
    ListContent,
}

impl View for Route {
    type V = RouteView;

    open spec fn view(&self) -> RouteView {
        match *self {
            Route::Initialize => RouteView::Initialize,
            Route::ListTools => RouteView::ListTools,
            Route::CallTool { name, arguments, meta } => RouteView::CallTool {
                name: name@,
                arguments: arguments@,
                meta: meta@,
            },
            Route::ListResources => RouteView::ListResources,
            Route::ReadResource => RouteView::ReadResource,
            Route::UpdateContent => RouteView::UpdateContent,
            Route::DeleteContent => RouteView::DeleteContent,
            Route::ListContent => RouteView::ListContent,
        }
    }
}

/// A value that was sent, or an object without entries.
pub open spec fn sent_or_empty(value: Option<JsonView>) -> JsonView {
    match value {
        Some(value) => value,
        None => JsonView::object(),
    }
}

/// What a request asks for.
pub open spec fn asked(method: Seq<char>, params: JsonView) -> Result<RouteView, Seq<char>> {
    if method == "initialize"@ {
        Ok(RouteView::Initialize)
    } else if method == "tools/list"@ {
        Ok(RouteView::ListTools)
    } else if method == "tools/call"@ {
        match as_text(field(params, "name"@)) {
            None => Err("name is required"@),
            Some(name) => Ok(
                RouteView::CallTool {
                    name,
                    arguments: sent_or_empty(field(params, "arguments"@)),
                    meta: sent_or_empty(field(params, "_meta"@)),
                },
            ),
        }
    } else if method == "resources/list"@ {
        Ok(RouteView::ListResources)
    } else if method == "resources/read"@ {
        Ok(RouteView::ReadResource)
    } else if method == "content/update"@ {
        Ok(RouteView::UpdateContent)
    } else if method == "content/delete"@ {
        Ok(RouteView::DeleteContent)
    } else if method == "content/list"@ {
        Ok(RouteView::ListContent)
    } else {
        Err("method not found"@)
    }
}

/// A copy of a value that was sent, or an object without entries.
fn copy_or_empty(params: &Json, key: &str) -> (value: Json)
    ensures
        value@ == sent_or_empty(field(params@, key@)),
{
    match get(params, key) {
        Some(value) => copy_json(value),
        None => Json::object(),
    }
}

/// Tells what a request asks for.
pub fn route(req: &Request) -> (out: Result<Route, String>)
    ensures
        result_view(out) == asked(req.method@, req.params@),
{
    let method = req.method.as_str();
    if same_text(method, "initialize") {
        Ok(Route::Initialize)
    } else if same_text(method, "tools/list") {
        Ok(Route::ListTools)
    } else if same_text(method, "tools/call") {
        match get_text(&req.params, "name") {
            None => Err("name is required".to_owned()),
            Some(name) => Ok(
                Route::CallTool {
                    name,
                    arguments: copy_or_empty(&req.params, "arguments"),
                    meta: copy_or_empty(&req.params, "_meta"),
                },
            ),
        }
    } else if same_text(method, "resources/list") {
        Ok(Route::ListResources)
    } else if same_text(method, "resources/read") {
        Ok(Route::ReadResource)
    } else if same_text(method, "content/update") {
        Ok(Route::UpdateContent)
    } else if same_text(method, "content/delete") {
        Ok(Route::DeleteContent)
    } else if same_text(method, "content/list") {
        Ok(Route::ListContent)
    } else {
        Err("method not found".to_owned())
    }
}

// ---------------------------------------------------------------------------
// Responses
// ---------------------------------------------------------------------------

/// The response to a request that was handled: a failure has the code -32000.
pub open spec fn answered(id: JsonView, result: Result<JsonView, Seq<char>>) -> ResponseView {
    match result {
        Ok(value) => success(id, value),
        Err(message) => failure(id, -32000, message),
    }
}

/// The response to a request that was handled.
pub fn handle_request(id: Json, result: Result<Json, String>) -> (response: Response)
    ensures
        response@ == answered(id@, result_view(result)),
{
    match result {
        Ok(value) => Response::ok(id, value),
        Err(message) => Response::err(id, -32000, message),
    }
}

/// What a line of input holds: no JSON text, which is refused, a batch of
/// requests, or one.
#[derive(Debug)]
pub enum Input {
    Refused(Response),
    Batch(Vec<Json>),
    One(Json),
}

/// What a line of input holds, as a mathematical value.
#[verifier::ext_equal]
pub enum InputView {
    Refused(ResponseView),
    Batch(Seq<JsonView>),
    One(JsonView),
}

impl View for Input {
    type V = InputView;

    open spec fn view(&self) -> InputView {
        match *self {
            Input::Refused(response) => InputView::Refused(response@),
            Input::Batch(items) => InputView::Batch(items_view(items@)),
            Input::One(value) => InputView::One(value@),
        }
    }
}

/// What a line of input holds that was read as a JSON text.
pub open spec fn line_input(parsed: Result<JsonView, Seq<char>>) -> InputView {
    match parsed {
        Err(message) => InputView::Refused(failure(JsonView::Null, -32700, message)),
        Ok(JsonView::List(items)) => InputView::Batch(items),
        Ok(value) => InputView::One(value),
    }
}

/// Tells what a line of input holds that was read as a JSON text.
pub fn read_input(parsed: Result<Json, String>) -> (input: Input)
    ensures
        input@ == line_input(result_view(parsed)),
{
    match parsed {
        Err(message) => Input::Refused(parse_failure(message)),
        Ok(Json::List(items)) => {
            proof {
                lemma_list_view(items);
            }
            Input::Batch(items)
        },
        Ok(value) => Input::One(value),
    }
}

/// Reads a line of input.
pub fn read_line(line: &str) -> (input: Input)
    ensures
        input@ == line_input(json_parsed(line@)),
{
    read_input(parse_json(line))
}

/// The response to a text that is no JSON text.
pub fn parse_failure(message: String) -> (response: Response)
    ensures
        response@ == failure(JsonView::Null, -32700, message@),
{
    Response::err(Json::Null, -32700, message)
}

/// The response to a JSON value that is no request.
pub fn request_failure(message: String) -> (response: Response)
    ensures
        response@ == failure(JsonView::Null, -32600, message@),
{
    Response::err(Json::Null, -32600, message)
}

/// The response to settings that cannot be applied.
pub fn settings_failure(id: Json, message: String) -> (response: Response)
    ensures
        response@ == failure(id@, -32602, message@),
{
    Response::err(id, -32602, message)
}

/// The response where the log cannot be written.
pub fn log_failure(id: Json, message: String) -> (response: Response)
    ensures
        response@ == failure(id@, -32603, message@),
{
    Response::err(id, -32603, message)
}

/// Applies the settings that come with an `initialize` request. Where they
/// cannot be applied the configuration stays as it is, as it does with any other
/// request.
pub fn begin_request(
    config: &mut Config,
    req: &Request,
    decoded: &Decoded,
    world: &Surroundings,
) -> (done: Result<(), String>)
    ensures
        match (req.method@ == "initialize"@, sent_settings(req.params@)) {
            (true, Some(value)) => match (overridden(old(config)@, value, decoded@, world@), done) {
                (Ok(next), Ok(_)) => final(config)@ == next,
                (Err(why), Err(message)) => final(config)@ == old(config)@ && message@ == why,
                _ => false,
            },
            _ => done is Ok && final(config)@ == old(config)@,
        },
{
    if same_text(req.method.as_str(), "initialize") {
        apply_initialize_config(config, req, decoded, world)
    } else {
        Ok(())
    }
}

/// How far a request has come: its settings are applied, the log is opened, the
/// work in the background is started anew, the request is handled, or there is a
/// response.
#[derive(Debug)]
pub enum Turn {
    Settle,
    OpenLog,
    Restart,
    Handle,
    Done(Response),
}

/// What came of a step of a request.
#[derive(Debug)]
pub enum TurnEvent {
    Settled(Result<(), String>),
    Opened(Result<(), String>),
    Restarted,
    Handled(Result<Json, String>),
}

/// How far a request has come, as a mathematical value.
#[verifier::ext_equal]
pub enum TurnView {
    Settle,
    OpenLog,
    Restart,
    Handle,
    Done(ResponseView),
}

impl View for Turn {
    type V = TurnView;

    open spec fn view(&self) -> TurnView {
        match *self {
            Turn::Settle => TurnView::Settle,
            Turn::OpenLog => TurnView::OpenLog,
            Turn::Restart => TurnView::Restart,
            Turn::Handle => TurnView::Handle,
            Turn::Done(response) => TurnView::Done(response@),
        }
    }
}

/// Where a step of a request leads. Only an `initialize` request opens the log
/// and starts the work in the background anew. What fits no step changes nothing.
pub open spec fn next_turn(
    id: JsonView,
    method: Seq<char>,
    turn: TurnView,
    event: TurnEvent,
) -> TurnView {
    match (turn, event) {
        (TurnView::Settle, TurnEvent::Settled(Err(message))) => TurnView::Done(
            failure(id, -32602, message@),
        ),
        (TurnView::Settle, TurnEvent::Settled(Ok(_))) => if method == "initialize"@ {
            TurnView::OpenLog
        } else {
            TurnView::Handle
        },
        (TurnView::OpenLog, TurnEvent::Opened(Err(message))) => TurnView::Done(
            failure(id, -32603, message@),
        ),
        (TurnView::OpenLog, TurnEvent::Opened(Ok(_))) => TurnView::Restart,
        (TurnView::Restart, TurnEvent::Restarted) => TurnView::Handle,
        (TurnView::Handle, TurnEvent::Handled(result)) => TurnView::Done(
            answered(id, result_view(result)),
        ),
        _ => turn,
    }
}

/// Takes a request one step further.
pub fn process_request(req: &Request, turn: Turn, event: TurnEvent) -> (next: Turn)
    ensures
        next@ == next_turn(req.id@, req.method@, turn@, event),
{
    match (turn, event) {
        (Turn::Settle, TurnEvent::Settled(result)) => match result {
            Err(message) => Turn::Done(settings_failure(copy_json(&req.id), message)),
            Ok(_) => if same_text(req.method.as_str(), "initialize") {
                Turn::OpenLog
            } else {
                Turn::Handle
            },
        },
        (Turn::OpenLog, TurnEvent::Opened(result)) => match result {
            Err(message) => Turn::Done(log_failure(copy_json(&req.id), message)),
            Ok(_) => Turn::Restart,
        },
        (Turn::Restart, TurnEvent::Restarted) => Turn::Handle,
        (Turn::Handle, TurnEvent::Handled(result)) => Turn::Done(
            handle_request(copy_json(&req.id), result),
        ),
        (turn, _) => turn,
    }
}

/// Where some steps lead, one behind the other.
pub open spec fn turns(
    id: JsonView,
    method: Seq<char>,
    turn: TurnView,
    events: Seq<TurnEvent>,
) -> TurnView
    decreases events.len(),
{
    if events.len() == 0 {
        turn
    } else {
        turns(id, method, next_turn(id, method, turn, events[0]), events.drop_first())
    }
}

/// Whatever comes of its steps, a request that is not `initialize` opens no log
/// and starts nothing anew.
pub proof fn law_only_initialize_restarts(
    id: JsonView,
    method: Seq<char>,
    events: Seq<TurnEvent>,
)
    requires
        method != "initialize"@,
    ensures
        turns(id, method, TurnView::Settle, events) !is OpenLog,
        turns(id, method, TurnView::Settle, events) !is Restart,
{
    lemma_no_restart(id, method, TurnView::Settle, events);
}

proof fn lemma_no_restart(
    id: JsonView,
    method: Seq<char>,
    turn: TurnView,
    events: Seq<TurnEvent>,
)
    requires
        method != "initialize"@,
        turn !is OpenLog,
        turn !is Restart,
    ensures
        turns(id, method, turn, events) !is OpenLog,
        turns(id, method, turn, events) !is Restart,
    decreases events.len(),
{
    if events.len() > 0 {
        lemma_no_restart(id, method, next_turn(id, method, turn, events[0]), events.drop_first());
    }
}

/// A request whose settings are refused is answered with its id and the reason,
/// whatever comes behind: the log is not opened, nothing starts anew, and the
/// request is not handled.
pub proof fn law_refused_settings_are_answered(
    id: JsonView,
    method: Seq<char>,
    message: String,
    events: Seq<TurnEvent>,
)
    ensures
        turns(
            id,
            method,
            TurnView::Settle,
            Seq::empty().push(TurnEvent::Settled(Err(message))) + events,
        ) == TurnView::Done(failure(id, -32602, message@)),
{
    let all = Seq::empty().push(TurnEvent::Settled(Err(message))) + events;
    assert(all.drop_first() =~= events);
    lemma_response_stays(id, method, failure(id, -32602, message@), events);
}

proof fn lemma_response_stays(
    id: JsonView,
    method: Seq<char>,
    response: ResponseView,
    events: Seq<TurnEvent>,
)
    ensures
        turns(id, method, TurnView::Done(response), events) == TurnView::Done(response),
    decreases events.len(),
{
    if events.len() > 0 {
        lemma_response_stays(id, method, response, events.drop_first());
    }
}

/// Whatever comes of its steps, a request is answered under its own id, with a
/// result or an error.
pub proof fn law_answers_carry_the_id(
    id: JsonView,
    method: Seq<char>,
    turn: TurnView,
    events: Seq<TurnEvent>,
)
    requires
        turn !is Done,
    ensures
        turns(id, method, turn, events) matches TurnView::Done(response) ==> response.id == id
            && response.jsonrpc == "2.0"@ && (response.result is Some) != (response.error is Some),
    decreases events.len(),
{
    if events.len() > 0 {
        match next_turn(id, method, turn, events[0]) {
            TurnView::Done(response) => {
                lemma_response_stays(id, method, response, events.drop_first());
            },
            next => {
                law_answers_carry_the_id(id, method, next, events.drop_first());
            },
        }
    }
}

/// What the server says of itself.
pub open spec fn greeting() -> JsonView {
    JsonView::object()
        .with(
            "serverInfo"@,
            JsonView::object()
                .with("name"@, JsonView::Text("mcp-search"@))
                .with("version"@, JsonView::Text("0.1.0"@)),
        )
        .with("configSchema"@, config_rules())
        .with(
            "capabilities"@,
            JsonView::object()
                .with(
                    "resources"@,
                    JsonView::object()
                        .with("list"@, JsonView::Bool(true))
                        .with("read"@, JsonView::Bool(true)),
                )
                .with(
                    "tools"@,
                    JsonView::object()
                        .with("list"@, JsonView::Bool(true))
                        .with("call"@, JsonView::Bool(true)),
                )
                .with(
                    "experimental"@,
                    JsonView::object()
                        .with("policy"@, JsonView::Bool(true)),
                )
                .with(
                    "_meta"@,
                    JsonView::object()
                        .with("server"@, JsonView::Text("mcp-search"@))
                        .with("vendor"@, JsonView::Text("celerex"@)),
                ),
        )
}

/// What the server says of itself.
pub fn initialize_result() -> (value: Json)
    ensures
        value@ == greeting(),
{
    Json::object()
        .with(
            "serverInfo",
            Json::object()
                .with("name", text_value("mcp-search"))
                .with("version", text_value("0.1.0")),
        )
        .with("configSchema", config_schema())
        .with(
            "capabilities",
            Json::object()
                .with(
                    "resources",
                    Json::object()
                        .with("list", Json::Bool(true))
                        .with("read", Json::Bool(true)),
                )
                .with(
                    "tools",
                    Json::object()
                        .with("list", Json::Bool(true))
                        .with("call", Json::Bool(true)),
                )
                .with(
                    "experimental",
                    Json::object()
                        .with("policy", Json::Bool(true)),
                )
                .with(
                    "_meta",
                    Json::object()
                        .with("server", text_value("mcp-search"))
                        .with("vendor", text_value("celerex")),
                ),
        )
}

// ---------------------------------------------------------------------------
// Tools
// ---------------------------------------------------------------------------

/// What is said of the search tool.
pub open spec fn search_tool() -> JsonView {
    JsonView::object()
        .with("name"@, JsonView::Text("semantic_search"@))
        .with("description"@, JsonView::Text("Finds content by meaning and context."@))
        .with("intentTemplate"@, JsonView::Text("Search for {query}"@))
        .with(
            "annotations"@,
            JsonView::object()
                .with("scopes"@, JsonView::list().item(JsonView::Text("read:search"@)))
                .with("group"@, JsonView::Text("search"@)),
        )
        .with(
            "inputSchema"@,
            JsonView::object()
                .with("type"@, JsonView::Text("object"@))
                .with("additionalProperties"@, JsonView::Bool(false))
                .with(
                    "properties"@,
                    JsonView::object()
                        .with(
                            "query"@,
                            described(
                                "string"@,
                                "A natural language description of what you are looking for."@,
                            ),
                        )
                        .with(
                            "limit"@,
                            JsonView::object()
                                .with("type"@, JsonView::Text("integer"@))
                                .with("minimum"@, unsigned(1))
                                .with("default"@, unsigned(5)),
                        ),
                )
                .with("required"@, JsonView::list().item(JsonView::Text("query"@))),
        )
}

/// What is said of the search tool.
fn search_tool_value() -> (value: Json)
    ensures
        value@ == search_tool(),
{
    Json::object()
        .with("name", text_value("semantic_search"))
        .with("description", text_value("Finds content by meaning and context."))
        .with("intentTemplate", text_value("Search for {query}"))
        .with(
            "annotations",
            Json::object()
                .with("scopes", Json::list().item(text_value("read:search")))
                .with("group", text_value("search")),
        )
        .with(
            "inputSchema",
            Json::object()
                .with("type", text_value("object"))
                .with("additionalProperties", Json::Bool(false))
                .with(
                    "properties",
                    Json::object()
                        .with(
                            "query",
                            described_value(
                                "string",
                                "A natural language description of what you are looking for.",
                            ),
                        )
                        .with(
                            "limit",
                            Json::object()
                                .with("type", text_value("integer"))
                                .with("minimum", number_value(1))
                                .with("default", number_value(5)),
                        ),
                )
                .with("required", Json::list().item(text_value("query"))),
        )
}

/// What is said of the tools: there is one.
pub fn tool_definitions() -> (value: Json)
    ensures
        value@ == JsonView::list().item(search_tool()),
{
    Json::list().item(search_tool_value())
}

/// The answer to the question which tools there are.
pub fn tools_list() -> (value: Json)
    ensures
        value@ == JsonView::object().with("tools"@, JsonView::list().item(search_tool())),
{
    Json::object().with("tools", tool_definitions())
}

/// What a tool's answer says in words.
pub open spec fn summary(name: Seq<char>, structured: JsonView) -> Seq<char> {
    match as_unsigned(field(structured, "count"@)) {
        Some(count) => "Found "@ + decimal(count as nat) + " result(s)"@,
        None => name + " completed"@,
    }
}

/// The answer of a tool.
pub open spec fn tool_answer(name: Seq<char>, structured: JsonView) -> JsonView {
    JsonView::object()
        .with(
            "content"@,
            JsonView::list().item(
                JsonView::object()
                    .with("type"@, JsonView::Text("text"@))
                    .with("text"@, JsonView::Text(summary(name, structured))),
            ),
        )
        .with("structuredContent"@, structured)
}

/// The answer of a tool, in words and as a value.
pub fn tool_success(name: &str, structured: Json) -> (value: Json)
    ensures
        value@ == tool_answer(name@, structured@),
{
    let told: String = match get_unsigned(&structured, "count") {
        Some(count) => {
            let mut text: String = "Found ".to_owned();
            push_decimal(&mut text, count);
            text.push_str(" result(s)");
            text
        },
        None => concat(name, " completed"),
    };
    let item = Json::object().with("type", text_value("text")).with(
        "text",
        text_value(told.as_str()),
    );
    Json::object().with("content", Json::list().item(item)).with("structuredContent", structured)
}

/// Whether a tool is the search; any other is answered with a failure.
pub fn execute_tool(name: &str) -> (refused: Option<Json>)
    ensures
        match refused {
            None => name@ == "semantic_search"@,
            Some(value) => name@ != "semantic_search"@ && value@ == tool_failure(
                name@,
                "unknown tool"@,
            ),
        },
{
    if same_text(name, "semantic_search") {
        None
    } else {
        Some(tool_error(name, "unknown tool"))
    }
}

// ---------------------------------------------------------------------------
// Resources
// ---------------------------------------------------------------------------

/// Which resources there are.
pub open spec fn resource_index() -> JsonView {
    JsonView::object()
        .with(
            "resources"@,
            JsonView::list()
                .item(
                    JsonView::object()
                        .with("uri"@, JsonView::Text("ui://search/index.html"@))
                        .with("name"@, JsonView::Text("Search"@))
                        .with("mimeType"@, JsonView::Text("text/html"@))
                        .with("annotations"@, typed("application"@)),
                )
                .item(
                    JsonView::object()
                        .with("uri"@, JsonView::Text("ui://search/app.css"@))
                        .with("name"@, JsonView::Text("search styles"@))
                        .with("mimeType"@, JsonView::Text("text/css"@)),
                )
                .item(
                    JsonView::object()
                        .with("uri"@, JsonView::Text("ui://search/app.js"@))
                        .with("name"@, JsonView::Text("search script"@))
                        .with("mimeType"@, JsonView::Text("text/javascript"@)),
                ),
        )
}

/// Which resources there are.
pub fn resources_list() -> (value: Json)
    ensures
        value@ == resource_index(),
{
    Json::object()
        .with(
            "resources",
            Json::list()
                .item(
                    Json::object()
                        .with("uri", text_value("ui://search/index.html"))
                        .with("name", text_value("Search"))
                        .with("mimeType", text_value("text/html"))
                        .with("annotations", typed_value("application")),
                )
                .item(
                    Json::object()
                        .with("uri", text_value("ui://search/app.css"))
                        .with("name", text_value("search styles"))
                        .with("mimeType", text_value("text/css")),
                )
                .item(
                    Json::object()
                        .with("uri", text_value("ui://search/app.js"))
                        .with("name", text_value("search script"))
                        .with("mimeType", text_value("text/javascript")),
                ),
        )
}

/// The texts of the resources.
#[derive(Clone, Debug)]
pub struct Assets {
    pub index_html: String,
    pub app_css: String,
    pub app_js: String,
}

/// A resource with its text.
pub open spec fn resource(uri: Seq<char>, kind: Seq<char>, text: Seq<char>) -> JsonView {
    JsonView::object().with(
        "contents"@,
        JsonView::list().item(
            JsonView::object()
                .with("uri"@, JsonView::Text(uri))
                .with("mimeType"@, JsonView::Text(kind))
                .with("text"@, JsonView::Text(text)),
        ),
    )
}

/// The resource that a request asks for.
pub open spec fn asked_resource(params: JsonView, assets: Assets) -> Result<JsonView, Seq<char>> {
    match as_text(field(params, "uri"@)) {
        None => Err("uri is required"@),
        Some(uri) => if uri == "ui://search/index.html"@ {
            Ok(resource(uri, "text/html"@, assets.index_html@))
        } else if uri == "ui://search/app.css"@ {
            Ok(resource(uri, "text/css"@, assets.app_css@))
        } else if uri == "ui://search/app.js"@ {
            Ok(resource(uri, "text/javascript"@, assets.app_js@))
        } else {
            Err("resource not found"@)
        },
    }
}

/// A resource with its text.
fn resource_value(uri: &str, kind: &str, text: &str) -> (value: Json)
    ensures
        value@ == resource(uri@, kind@, text@),
{
    let item = Json::object().with("uri", text_value(uri)).with(
        "mimeType",
        text_value(kind),
    ).with("text", text_value(text));
    Json::object().with("contents", Json::list().item(item))
}

/// The resource that a request asks for.
pub fn resources_read(req: &Request, assets: &Assets) -> (out: Result<Json, String>)
    ensures
        result_view(out) == asked_resource(req.params@, *assets),
{
    match get_text(&req.params, "uri") {
        None => Err("uri is required".to_owned()),
        Some(uri) => if same_text(uri.as_str(), "ui://search/index.html") {
            Ok(resource_value(uri.as_str(), "text/html", assets.index_html.as_str()))
        } else if same_text(uri.as_str(), "ui://search/app.css") {
            Ok(resource_value(uri.as_str(), "text/css", assets.app_css.as_str()))
        } else if same_text(uri.as_str(), "ui://search/app.js") {
            Ok(resource_value(uri.as_str(), "text/javascript", assets.app_js.as_str()))
        } else {
            Err("resource not found".to_owned())
        },
    }
}

// ---------------------------------------------------------------------------
// External contents
// ---------------------------------------------------------------------------

/// An external content that a client sends.
#[derive(Clone, Debug)]
pub struct ContentUpdate {
    pub id: String,
    pub language: String,
    pub content: String,
    pub metadata: Option<String>,
}

/// An external content as a mathematical value.
#[verifier::ext_equal]
pub struct UpdateView {
    pub id: Seq<char>,
    pub language: Seq<char>,
    pub content: Seq<char>,
    pub metadata: Option<Seq<char>>,
}

impl View for ContentUpdate {
    type V = UpdateView;

    open spec fn view(&self) -> UpdateView {
        UpdateView {
            id: self.id@,
            language: self.language@,
            content: self.content@,
            metadata: text_view(self.metadata),
        }
    }
}

/// The external content that a client sends: its id, its language and its text
/// are required, and the latter two must not be blank. Its metadata, where it has
/// any, is taken as a JSON text.
pub open spec fn sent_content(params: JsonView) -> Result<UpdateView, Seq<char>> {
    match (
        as_text(field(params, "id"@)),
        as_text(field(params, "language"@)),
        as_text(field(params, "content"@)),
    ) {
        (None, _, _) => Err("id is required"@),
        (Some(_), None, _) => Err("language is required"@),
        (Some(id), Some(language), content) => if blank(language) {
            Err("language must not be empty"@)
        } else {
            match content {
                None => Err("content is required"@),
                Some(content) => if blank(content) {
                    Err("content must not be empty"@)
                } else {
                    Ok(
                        UpdateView {
                            id,
                            language,
                            content,
                            metadata: match field(params, "metadata"@) {
                                None => None,
                                Some(JsonView::Null) => None,
                                Some(value) => Some(json_written(value)),
                            },
                        },
                    )
                },
            }
        },
    }
}

/// Reads the external content that a client sends.
pub fn read_content_update(params: &Json) -> (out: Result<ContentUpdate, String>)
    ensures
        result_view(out) == sent_content(params@),
{
    let id = match get_text(params, "id") {
        Some(id) => id,
        None => {
            return Err("id is required".to_owned());
        },
    };
    let language = match get_text(params, "language") {
        Some(language) => language,
        None => {
            return Err("language is required".to_owned());
        },
    };
    if is_blank(language.as_str()) {
        return Err("language must not be empty".to_owned());
    }
    let content = match get_text(params, "content") {
        Some(content) => content,
        None => {
            return Err("content is required".to_owned());
        },
    };
    if is_blank(content.as_str()) {
        return Err("content must not be empty".to_owned());
    }
    let metadata: Option<String> = match get(params, "metadata") {
        None => None,
        Some(Json::Null) => None,
        Some(value) => Some(write_json(value)),
    };
    Ok(ContentUpdate { id, language, content, metadata })
}

/// The job of bringing the chunks of an external content up to date. `language`
/// is the name of its language, if it is known.
pub open spec fn content_job(update: UpdateView, language: Option<Seq<char>>) -> Result<
    JobView,
    Seq<char>,
> {
    match language {
        None => Err("unknown language: "@ + update.language),
        Some(language) => Ok(
            JobView {
                source_type: "content"@,
                source_id: update.id,
                path: content_path(update.id),
                hash: content_hash(update.content, language, update.metadata),
                metadata: update.metadata,
                external: true,
            },
        ),
    }
}

/// Starts the job of bringing the chunks of an external content up to date.
pub fn content_update(update: &ContentUpdate, language: &Option<String>) -> (job: Result<
    Job,
    String,
>)
    ensures
        result_view(job) == content_job(update@, text_view(*language)),
{
    match language {
        None => Err(concat("unknown language: ", update.language.as_str())),
        Some(language) => Ok(
            Job {
                source_type: "content".to_owned(),
                source_id: update.id.clone(),
                path: path_of_content(update.id.as_str()),
                hash: hash_content(update.content.as_str(), language.as_str(), &update.metadata),
                metadata: copy_text(&update.metadata),
                external: true,
            },
        ),
    }
}

/// What is answered once an external content is up to date.
pub open spec fn update_answer(id: Seq<char>, hash: Seq<char>, outcome: Outcome) -> JsonView {
    JsonView::object()
        .with("id"@, JsonView::Text(id))
        .with("hash"@, JsonView::Text(hash))
        .with("updated"@, JsonView::Bool(outcome != Outcome::Unchanged))
        .with(
            "chunks"@,
            unsigned(
                match outcome {
                    Outcome::Written(count) => count as int,
                    _ => 0,
                },
            ),
        )
}

/// What is answered once an external content is up to date.
pub fn update_result(id: &str, hash: &str, outcome: Outcome) -> (value: Json)
    ensures
        value@ == update_answer(id@, hash@, outcome),
{
    let count: u64 = match outcome {
        Outcome::Written(count) => count as u64,
        _ => 0,
    };
    let updated = match outcome {
        Outcome::Unchanged => false,
        _ => true,
    };
    Json::object().with("id", text_value(id)).with("hash", text_value(hash)).with(
        "updated",
        Json::Bool(updated),
    ).with("chunks", number_value(count))
}

/// Tells what removes an external content: first its chunks go, then its hash.
pub fn content_delete(req: &Request) -> (out: Result<(String, Vec<Removal>), String>)
    ensures
        match (as_text(field(req.params@, "id"@)), out) {
            (Some(id), Ok(out)) => {
                &&& out.0@ == id
                &&& views(out.1@) == removal("content"@, id, content_path(id))
            },
            (None, Err(message)) => message@ == "id is required"@,
            _ => false,
        },
{
    match get_text(&req.params, "id") {
        None => Err("id is required".to_owned()),
        Some(id) => {
            let path = path_of_content(id.as_str());
            let steps = remove_source("content", id.as_str(), path.as_str());
            Ok((id, steps))
        },
    }
}

/// What is answered once an external content is removed.
pub fn delete_result(id: &str) -> (value: Json)
    ensures
        value@ == JsonView::object().with("id"@, JsonView::Text(id@)).with(
            "deleted"@,
            JsonView::Bool(true),
        ),
{
    Json::object().with("id", text_value(id)).with("deleted", Json::Bool(true))
}

/// The answer to the question which external contents there are.
pub fn content_list(ids: &Vec<String>) -> (value: Json)
    ensures
        value@ == JsonView::object().with("ids"@, JsonView::List(text_items(texts(ids@)))),
{
    Json::object().with("ids", text_list(ids))
}

// ---------------------------------------------------------------------------
// Background tasks
// ---------------------------------------------------------------------------

/// The directory of the store of an instance.
pub open spec fn instance_store(config: ConfigView) -> Seq<char> {
    joined_path(config.lancedb_path, config.context)
}

/// The directory of the store of an instance.
pub fn store_path(config: &Config) -> (path: String)
    ensures
        path@ == instance_store(config@),
{
    join_path(config.lancedb_path.as_str(), config.context.as_str())
}

/// What the tasks in the background work on.
#[derive(Clone, Debug)]
pub struct BackgroundPlan {
    pub index: IndexConfig,
    pub debounce_ms: u64,
    pub language_pack_root: String,
    pub languages: Option<Vec<String>>,
    pub language_download: bool,
    pub embedder: EmbedderConfig,
    pub lancedb_path: String,
}

/// What the tasks in the background work on, as a mathematical value.
#[verifier::ext_equal]
pub struct BackgroundView {
    pub roots: Seq<Seq<char>>,
    pub max_tokens: int,
    pub overlap_tokens: int,
    pub concurrency: int,
    pub debounce_ms: int,
    pub language_pack_root: Seq<char>,
    pub languages: Option<Seq<Seq<char>>>,
    pub language_download: bool,
    pub embedder: EmbedderView,
    pub lancedb_path: Seq<char>,
}

impl View for BackgroundPlan {
    type V = BackgroundView;

    open spec fn view(&self) -> BackgroundView {
        BackgroundView {
            roots: texts(self.index.roots@),
            max_tokens: self.index.max_tokens as int,
            overlap_tokens: self.index.overlap_tokens as int,
            concurrency: self.index.concurrency as int,
            debounce_ms: self.debounce_ms as int,
            language_pack_root: self.language_pack_root@,
            languages: texts_view(self.languages),
            language_download: self.language_download,
            embedder: self.embedder@,
            lancedb_path: self.lancedb_path@,
        }
    }
}

/// What the tasks in the background work on: nothing where there is no root.
pub open spec fn background(config: ConfigView) -> Option<BackgroundView> {
    if config.roots.len() == 0 {
        None
    } else {
        Some(
            BackgroundView {
                roots: Seq::new(config.roots.len(), |i: int| config.roots[i].path),
                max_tokens: config.chunk_max_tokens,
                overlap_tokens: config.chunk_overlap_tokens,
                concurrency: config.embedder.concurrency,
                debounce_ms: config.watch_debounce_ms,
                language_pack_root: config.language_pack_root,
                languages: config.languages,
                language_download: config.language_download,
                embedder: config.embedder,
                lancedb_path: instance_store(config),
            },
        )
    }
}

/// Tells what the tasks in the background work on: nothing where there is no
/// root.
pub fn plan_background(config: &Config) -> (plan: Option<BackgroundPlan>)
    ensures
        option_view(plan) == background(config@),
{
    assert(config@.roots.len() == config.roots@.len());
    if config.roots.len() == 0 {
        return None;
    }
    let ghost all = config@.roots;
    let ghost paths = Seq::new(all.len(), |i: int| all[i].path);
    let mut roots: Vec<String> = Vec::new();
    let mut i: usize = 0;
    assert(texts(roots@) =~= paths.take(0));
    while i < config.roots.len()
        invariant
            i <= config.roots@.len(),
            all == views(config.roots@),
            paths == Seq::new(all.len(), |i: int| all[i].path),
            texts(roots@) == paths.take(i as int),
        decreases config.roots@.len() - i,
    {
        let path = config.roots[i].path.clone();
        proof {
            assert(all[i as int] == config.roots@[i as int]@);
            assert(texts(roots@.push(path)) =~= texts(roots@).push(path@));
            assert(paths.take(i + 1) =~= paths.take(i as int).push(paths[i as int]));
        }
        roots.push(path);
        i = i + 1;
    }
    assert(paths.take(i as int) =~= paths);
    Some(
        BackgroundPlan {
            index: IndexConfig {
                roots,
                max_tokens: config.chunk_max_tokens,
                overlap_tokens: config.chunk_overlap_tokens,
                concurrency: config.embedder.concurrency,
            },
            debounce_ms: config.watch_debounce_ms,
            language_pack_root: config.language_pack_root.clone(),
            languages: copy_texts(&config.languages),
            language_download: config.language_download,
            embedder: copy_embedder(&config.embedder),
            lancedb_path: store_path(config),
        },
    )
}

} // verus!
