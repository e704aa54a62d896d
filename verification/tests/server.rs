use mcp_search::config::{
    default_config, Config, Decoded, EmbedderConfig, FastembedConfig, OllamaConfig, OpenAiConfig,
    Surroundings,
};
use mcp_search::embedder::{
    build_embedder, missing_key, openai_url, order_embeddings, plan_ollama, resolve_model,
    BgeEmbedder, EmbedderChoice, EmbeddingModel, IndexedVector, OllamaEmbedder, OpenAiEmbedder,
};
use mcp_search::hashing::hash_content;
use mcp_search::jobs::{Outcome, Removal};
use mcp_search::json::{Json, JsonEntry, JsonNumber};
use mcp_search::protocol::{tool_error, Request, Response};
use mcp_search::server::{
    begin_request, content_delete, content_list, content_update, delete_result, execute_tool,
    handle_request, initialize_result, log_failure, parse_failure, plan_background,
    process_request, read_content_update, read_input, read_line, request_failure, resources_list,
    resources_read, route, store_path, tool_success, tools_list, update_result, Assets, Input,
    Route, Turn, TurnEvent,
};

fn json_of(value: &serde_json::Value) -> Json {
    match value {
        serde_json::Value::Null => Json::Null,
        serde_json::Value::Bool(b) => Json::Bool(*b),
        serde_json::Value::Number(n) => Json::Number(match (n.as_u64(), n.as_i64()) {
            (Some(n), _) => JsonNumber::Unsigned(n),
            (None, Some(n)) => JsonNumber::Negative(n),
            (None, None) => JsonNumber::Real(n.to_string()),
        }),
        serde_json::Value::String(text) => Json::Text(text.clone()),
        serde_json::Value::Array(items) => Json::List(items.iter().map(json_of).collect()),
        serde_json::Value::Object(map) => Json::Object(
            map.iter().map(|(key, value)| JsonEntry { key: key.clone(), value: json_of(value) }).collect(),
        ),
    }
}

fn json(text: &str) -> Json {
    json_of(&serde_json::from_str(text).unwrap())
}

fn value_of(json: &Json) -> serde_json::Value {
    match json {
        Json::Null => serde_json::Value::Null,
        Json::Bool(b) => serde_json::Value::Bool(*b),
        Json::Number(JsonNumber::Unsigned(n)) => serde_json::Value::from(*n),
        Json::Number(JsonNumber::Negative(n)) => serde_json::Value::from(*n),
        Json::Number(JsonNumber::Real(text)) => serde_json::from_str(text).unwrap(),
        Json::Text(text) => serde_json::Value::String(text.clone()),
        Json::List(items) => serde_json::Value::Array(items.iter().map(value_of).collect()),
        Json::Object(entries) => serde_json::Value::Object(
            entries.iter().map(|entry| (entry.key.clone(), value_of(&entry.value))).collect(),
        ),
    }
}

fn same(json: &Json, text: &str) {
    assert_eq!(value_of(json), serde_json::from_str::<serde_json::Value>(text).unwrap());
}

fn world() -> Surroundings {
    Surroundings { cwd: "/work".to_string(), canonical: Vec::new() }
}

fn config() -> Config {
    default_config(&world())
}

fn request(method: &str, params: &str) -> Request {
    Request { id: json("7"), method: method.to_string(), params: json(params) }
}

fn no_decoding() -> Decoded {
    Decoded {
        roots: Ok(Vec::new()),
        fastembed: Err("x".to_string()),
        ollama: Err("x".to_string()),
        openai: Err("x".to_string()),
    }
}

fn same_failure(response: &Response, id: &str, code: i64, message: &str) {
    assert_eq!(response.jsonrpc, "2.0");
    same(&response.id, id);
    assert!(response.result.is_none());
    let error = response.error.as_ref().unwrap();
    assert_eq!((error.code, error.message.as_str()), (code, message));
}

#[test]
fn requests_are_routed() {
    assert!(matches!(route(&request("initialize", "{}")), Ok(Route::Initialize)));
    assert!(matches!(route(&request("tools/list", "{}")), Ok(Route::ListTools)));
    assert!(matches!(route(&request("resources/list", "{}")), Ok(Route::ListResources)));
    assert!(matches!(route(&request("resources/read", "{}")), Ok(Route::ReadResource)));
    assert!(matches!(route(&request("content/update", "{}")), Ok(Route::UpdateContent)));
    assert!(matches!(route(&request("content/delete", "{}")), Ok(Route::DeleteContent)));
    assert!(matches!(route(&request("content/list", "{}")), Ok(Route::ListContent)));
    assert_eq!(route(&request("nope", "{}")).unwrap_err(), "method not found");
    assert_eq!(route(&request("tools/call", "{}")).unwrap_err(), "name is required");
    match route(&request("tools/call", "{\"name\": \"semantic_search\", \"arguments\": {\"query\": \"q\"}}")) {
        Ok(Route::CallTool { name, arguments, meta }) => {
            assert_eq!(name, "semantic_search");
            same(&arguments, "{\"query\": \"q\"}");
            same(&meta, "{}");
        }
        _ => panic!("no tool call"),
    }
}

#[test]
fn answers_carry_the_id() {
    let good = handle_request(json("\"a\""), Ok(json("{\"x\": 1}")));
    assert_eq!(good.jsonrpc, "2.0");
    same(&good.id, "\"a\"");
    same(good.result.as_ref().unwrap(), "{\"x\": 1}");
    assert!(good.error.is_none());
    same_failure(&handle_request(json("3"), Err("why".to_string())), "3", -32000, "why");
    same_failure(&parse_failure("why".to_string()), "null", -32700, "why");
    same_failure(&request_failure("why".to_string()), "null", -32600, "why");
    same_failure(&log_failure(json("4"), "why".to_string()), "4", -32603, "why");
}

#[test]
fn bad_settings_leave_the_configuration() {
    let mut own = config();
    let bad = "{\"capabilities\": {\"experimental\": {\"configuration\": {\"context\": 1}}}}";
    let req = request("initialize", bad);
    let message = begin_request(&mut own, &req, &no_decoding(), &world()).unwrap_err();
    match process_request(&req, Turn::Settle, TurnEvent::Settled(Err(message))) {
        Turn::Done(refusal) => same_failure(&refusal, "7", -32602, "context must be a string"),
        _ => panic!("not refused"),
    }
    assert_eq!(own.context, "default");
    let good = "{\"capabilities\": {\"experimental\": {\"configuration\": {\"context\": \"c\"}}}}";
    assert!(begin_request(&mut own, &request("tools/list", good), &no_decoding(), &world()).is_ok());
    assert_eq!(own.context, "default");
    assert!(begin_request(&mut own, &request("initialize", good), &no_decoding(), &world()).is_ok());
    assert_eq!(own.context, "c");
}

#[test]
fn a_line_holds_one_request_or_many() {
    assert!(matches!(read_input(Ok(json("[{}, 1]"))), Input::Batch(items) if items.len() == 2));
    assert!(matches!(read_input(Ok(json("{}"))), Input::One(_)));
    match read_input(Err("why".to_string())) {
        Input::Refused(response) => same_failure(&response, "null", -32700, "why"),
        _ => panic!("not refused"),
    }
}

#[test]
fn a_line_is_read_as_json() {
    let text = "{\"id\": 7, \"method\": \"m\", \"params\": {\"b\": [-1, 2.50, true, null], \"a\": \"\\u00e9\"}}\n";
    match read_line(text) {
        Input::One(Json::Object(entries)) => {
            assert_eq!(entries[0].key, "id");
            assert!(matches!(entries[0].value, Json::Number(JsonNumber::Unsigned(7))));
            let Json::Object(params) = &entries[2].value else { panic!("no object") };
            assert_eq!(params.len(), 2);
            let b = params.iter().find(|entry| entry.key == "b").unwrap();
            let Json::List(items) = &b.value else { panic!("no list") };
            assert!(matches!(items[0], Json::Number(JsonNumber::Negative(-1))));
            assert!(matches!(&items[1], Json::Number(JsonNumber::Real(text)) if text == "2.5"));
            assert!(matches!(items[2], Json::Bool(true)));
            assert!(matches!(items[3], Json::Null));
            same(&Json::Object(entries), text);
        },
        _ => panic!("not one request"),
    }
    match read_line("[1, {\"id\": 1}]") {
        Input::Batch(items) => {
            assert_eq!(items.len(), 2);
            same(&items[1], "{\"id\": 1}");
        },
        _ => panic!("not a batch"),
    }
    for text in ["", "{", "{} {}"] {
        let why = serde_json::from_str::<serde_json::Value>(text).unwrap_err().to_string();
        match read_line(text) {
            Input::Refused(response) => same_failure(&response, "null", -32700, &why),
            _ => panic!("not refused"),
        }
    }
}

#[test]
fn initialize_goes_through_all_steps() {
    let req = request("initialize", "{}");
    let turn = process_request(&req, Turn::Settle, TurnEvent::Settled(Ok(())));
    assert!(matches!(turn, Turn::OpenLog));
    let turn = process_request(&req, turn, TurnEvent::Opened(Ok(())));
    assert!(matches!(turn, Turn::Restart));
    let turn = process_request(&req, turn, TurnEvent::Restarted);
    assert!(matches!(turn, Turn::Handle));
    match process_request(&req, turn, TurnEvent::Handled(Ok(json("1")))) {
        Turn::Done(response) => same(response.result.as_ref().unwrap(), "1"),
        _ => panic!("not done"),
    }
    match process_request(&req, Turn::OpenLog, TurnEvent::Opened(Err("why".to_string()))) {
        Turn::Done(response) => same_failure(&response, "7", -32603, "why"),
        _ => panic!("not done"),
    }
}

#[test]
fn other_requests_restart_nothing() {
    let req = request("tools/list", "{}");
    let turn = process_request(&req, Turn::Settle, TurnEvent::Settled(Ok(())));
    assert!(matches!(turn, Turn::Handle));
    let turn = process_request(&req, turn, TurnEvent::Restarted);
    assert!(matches!(turn, Turn::Handle));
    match process_request(&req, turn, TurnEvent::Handled(Err("why".to_string()))) {
        Turn::Done(response) => same_failure(&response, "7", -32000, "why"),
        _ => panic!("not done"),
    }
}

#[test]
fn the_server_introduces_itself() {
    let value = value_of(&initialize_result());
    assert_eq!(value["serverInfo"]["name"], "mcp-search");
    assert_eq!(value["serverInfo"]["version"], "0.1.0");
    assert_eq!(value["configSchema"]["type"], "object");
    assert_eq!(value["capabilities"]["tools"]["call"], true);
    assert_eq!(value["capabilities"]["resources"]["read"], true);
    assert_eq!(value["capabilities"]["experimental"]["policy"], true);
    assert_eq!(value["capabilities"]["_meta"]["vendor"], "celerex");
}

#[test]
fn one_tool_is_offered() {
    let value = value_of(&tools_list());
    assert_eq!(value["tools"].as_array().unwrap().len(), 1);
    let tool = &value["tools"][0];
    assert_eq!(tool["name"], "semantic_search");
    assert_eq!(tool["intentTemplate"], "Search for {query}");
    assert_eq!(tool["annotations"]["scopes"][0], "read:search");
    assert_eq!(tool["inputSchema"]["properties"]["limit"]["default"], 5);
    assert_eq!(tool["inputSchema"]["required"][0], "query");
    assert!(execute_tool("semantic_search").is_none());
    same(&execute_tool("other").unwrap(), "{\"tool\": \"other\", \"error\": \"unknown tool\"}");
    same(&tool_error("t", "m"), "{\"tool\": \"t\", \"error\": \"m\"}");
}

#[test]
fn tool_answers_have_a_summary() {
    same(
        &tool_success("semantic_search", json("{\"count\": 2}")),
        "{\"content\": [{\"type\": \"text\", \"text\": \"Found 2 result(s)\"}], \"structuredContent\": {\"count\": 2}}",
    );
    same(
        &tool_success("other", json("{}")),
        "{\"content\": [{\"type\": \"text\", \"text\": \"other completed\"}], \"structuredContent\": {}}",
    );
}

#[test]
fn resources_are_read() {
    let assets = Assets { index_html: "H".to_string(), app_css: "C".to_string(), app_js: "J".to_string() };
    let read = |params: &str| resources_read(&request("resources/read", params), &assets);
    same(
        &read("{\"uri\": \"ui://search/index.html\"}").unwrap(),
        "{\"contents\": [{\"uri\": \"ui://search/index.html\", \"mimeType\": \"text/html\", \"text\": \"H\"}]}",
    );
    same(
        &read("{\"uri\": \"ui://search/app.css\"}").unwrap(),
        "{\"contents\": [{\"uri\": \"ui://search/app.css\", \"mimeType\": \"text/css\", \"text\": \"C\"}]}",
    );
    same(
        &read("{\"uri\": \"ui://search/app.js\"}").unwrap(),
        "{\"contents\": [{\"uri\": \"ui://search/app.js\", \"mimeType\": \"text/javascript\", \"text\": \"J\"}]}",
    );
    assert_eq!(read("{}").unwrap_err(), "uri is required");
    assert_eq!(read("{\"uri\": \"x\"}").unwrap_err(), "resource not found");
    let list = value_of(&resources_list());
    assert_eq!(list["resources"].as_array().unwrap().len(), 3);
    assert_eq!(list["resources"][0]["annotations"]["type"], "application");
    assert_eq!(list["resources"][2]["mimeType"], "text/javascript");
}

#[test]
fn content_is_read() {
    let written = "{\"a\":null,\"b\":[1,-2,2.5,\"x\\n\"]}";
    let update = read_content_update(
        &json("{\"id\": \"x\", \"language\": \"Rust\", \"content\": \"c\", \"metadata\": {\"b\": [1, -2, 2.50, \"x\\n\"], \"a\": null}}"),
    )
    .unwrap();
    assert_eq!(update.id, "x");
    assert_eq!(update.metadata, Some(written.to_string()));
    let job = content_update(&update, &Some("rust".to_string())).unwrap();
    assert_eq!(job.source_type, "content");
    assert_eq!(job.source_id, "x");
    assert_eq!(job.path, "content://x");
    assert_eq!(job.hash, hash_content("c", "rust", &Some(written.to_string())));
    assert!(job.external);
    assert_eq!(content_update(&update, &None).unwrap_err(), "unknown language: Rust");
    let plain = read_content_update(
        &json("{\"id\": \"x\", \"language\": \"Rust\", \"content\": \"c\", \"metadata\": null}"),
    )
    .unwrap();
    assert_eq!(plain.metadata, None);
}

#[test]
fn wrong_content_is_refused() {
    for (params, message) in [
        ("{}", "id is required"),
        ("{\"id\": 1}", "id is required"),
        ("{\"id\": \"x\"}", "language is required"),
        ("{\"id\": \"x\", \"language\": \" \"}", "language must not be empty"),
        ("{\"id\": \"x\", \"language\": \"l\"}", "content is required"),
        ("{\"id\": \"x\", \"language\": \"l\", \"content\": \"\\n\"}", "content must not be empty"),
    ] {
        assert_eq!(read_content_update(&json(params)).unwrap_err(), message);
    }
}

#[test]
fn updates_are_answered() {
    same(
        &update_result("x", "h", Outcome::Unchanged),
        "{\"id\": \"x\", \"hash\": \"h\", \"updated\": false, \"chunks\": 0}",
    );
    same(
        &update_result("x", "h", Outcome::NoChunks),
        "{\"id\": \"x\", \"hash\": \"h\", \"updated\": true, \"chunks\": 0}",
    );
    same(
        &update_result("x", "h", Outcome::Written(3)),
        "{\"id\": \"x\", \"hash\": \"h\", \"updated\": true, \"chunks\": 3}",
    );
}

#[test]
fn content_is_deleted_and_listed() {
    let (id, steps) = content_delete(&request("content/delete", "{\"id\": \"x\"}")).unwrap();
    assert_eq!(id, "x");
    assert!(matches!(&steps[0], Removal::Chunks(path) if path == "content://x"));
    assert!(matches!(&steps[1], Removal::Hash(kind, id) if kind == "content" && id == "x"));
    assert_eq!(content_delete(&request("content/delete", "{}")).unwrap_err(), "id is required");
    same(&delete_result("x"), "{\"id\": \"x\", \"deleted\": true}");
    same(&content_list(&vec!["a".to_string(), "b".to_string()]), "{\"ids\": [\"a\", \"b\"]}");
}

#[test]
fn background_work_is_planned() {
    let mut own = config();
    assert_eq!(store_path(&own), ".mcp-search/lancedb/default");
    let plan = plan_background(&own).unwrap();
    assert_eq!(plan.index.roots, vec!["/work"]);
    assert_eq!(plan.index.max_tokens, 300);
    assert_eq!(plan.index.overlap_tokens, 50);
    assert_eq!(plan.index.concurrency, 1);
    assert_eq!(plan.debounce_ms, 200);
    assert_eq!(plan.lancedb_path, ".mcp-search/lancedb/default");
    own.roots = Vec::new();
    assert!(plan_background(&own).is_none());
}

#[test]
fn models_are_resolved() {
    let model = |name: Option<&str>| {
        resolve_model(&FastembedConfig { model: name.map(|n| n.to_string()), model_path: "m".to_string() })
    };
    assert_eq!(model(None), Ok(EmbeddingModel::BgeSmallEnV15));
    assert_eq!(model(Some("bge-small-en-v1.5")), Ok(EmbeddingModel::BgeSmallEnV15));
    assert_eq!(model(Some("bge-base-en-v1.5")), Ok(EmbeddingModel::BgeBaseEnV15));
    assert_eq!(model(Some("bge-large-en-v1.5")), Ok(EmbeddingModel::BgeLargeEnV15));
    assert_eq!(model(Some("e5-small-v2")), Ok(EmbeddingModel::MultilingualE5Small));
    assert_eq!(model(Some("e5-base-v2")), Ok(EmbeddingModel::MultilingualE5Base));
    assert_eq!(model(Some("e5-large-v2")), Ok(EmbeddingModel::MultilingualE5Large));
    assert_eq!(model(Some("gpt")).unwrap_err(), "unsupported fastembed model: gpt");
}

#[test]
fn an_embedder_is_chosen() {
    let local = FastembedConfig { model: None, model_path: "./m".to_string() };
    let ollama = OllamaConfig { base_url: "http://o/".to_string(), model: "m".to_string(), batch: false };
    let openai = OpenAiConfig { api_key_env: "KEY".to_string(), model: "m".to_string() };
    let mut config = EmbedderConfig {
        provider: "fastembed".to_string(),
        concurrency: 2,
        fastembed: Some(local.clone()),
        ollama: Some(ollama.clone()),
        openai: Some(openai.clone()),
    };
    assert!(matches!(build_embedder(&config), Ok(EmbedderChoice::Bge(e)) if e.cache_dir == "./m" && e.concurrency == 2));
    config.provider = "ollama".to_string();
    assert!(matches!(build_embedder(&config), Ok(EmbedderChoice::Ollama(e)) if e.config.base_url == "http://o/"));
    config.provider = "openai".to_string();
    assert!(matches!(build_embedder(&config), Ok(EmbedderChoice::OpenAi(e)) if e.config.api_key_env == "KEY"));
    config.provider = "x".to_string();
    assert_eq!(build_embedder(&config).unwrap_err(), "unknown embedder provider: x");
    config.fastembed = None;
    config.ollama = None;
    config.openai = None;
    for provider in ["fastembed", "ollama", "openai"] {
        config.provider = provider.to_string();
        assert_eq!(build_embedder(&config).unwrap_err(), format!("embedder.{} is required", provider));
    }
    let blank = FastembedConfig { model: None, model_path: " ".to_string() };
    assert_eq!(BgeEmbedder::new(blank, 1).unwrap_err(), "embedder.fastembed.model_path is required");
    let blank = OllamaConfig { model: "".to_string(), ..ollama };
    assert_eq!(
        OllamaEmbedder::new(blank, 1).unwrap_err(),
        "embedder.ollama.base_url and embedder.ollama.model are required"
    );
    let blank = OpenAiConfig { model: "".to_string(), ..openai };
    assert_eq!(
        OpenAiEmbedder::new(blank, 1).unwrap_err(),
        "embedder.openai.api_key_env and embedder.openai.model are required"
    );
}

#[test]
fn ollama_is_asked_at_once_or_one_by_one() {
    let list = vec!["a".to_string(), "b".to_string()];
    let mut config = OllamaConfig { base_url: "http://o//".to_string(), model: "m".to_string(), batch: true };
    let requests = plan_ollama(&config, &list);
    assert_eq!(requests.len(), 1);
    assert_eq!(requests[0].url, "http://o/api/embed");
    assert_eq!(requests[0].model, "m");
    assert_eq!(requests[0].texts, list);
    config.batch = false;
    let requests = plan_ollama(&config, &list);
    assert_eq!(requests.len(), 2);
    assert_eq!(requests[1].url, "http://o/api/embeddings");
    assert_eq!(requests[1].texts, vec!["b"]);
}

#[test]
fn vectors_are_put_in_order() {
    let vector = |index, value| IndexedVector { index, embedding: vec![value] };
    let sorted = order_embeddings(vec![vector(2, 'c'), vector(0, 'a'), vector(2, 'd'), vector(1, 'b')]);
    assert_eq!(sorted, vec![vec!['a'], vec!['b'], vec!['c'], vec!['d']]);
    assert_eq!(openai_url(), "https://api.openai.com/v1/embeddings");
    let config = OpenAiConfig { api_key_env: "KEY".to_string(), model: "m".to_string() };
    assert_eq!(missing_key(&config), "missing OPENAI api key env: KEY");
}
