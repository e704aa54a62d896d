use mcp_search::config::{
    apply_config_override, apply_initialize_config, build_root_configs, canonicalize_or_self,
    config_schema, default_config, finalize_roots, find_settings, parse_embedder_config,
    parse_string_list, parse_u64_value, parse_usize_value, CanonicalPath, Config, Decoded,
    FastembedConfig, OllamaConfig, OpenAiConfig, RootInput, Surroundings,
};
use mcp_search::json::{Json, JsonEntry, JsonNumber};
use mcp_search::protocol::Request;
fn json_of(value: &serde_json::Value) -> Json {
    match value {
        serde_json::Value::Null => Json::Null,
        serde_json::Value::Bool(b) => Json::Bool(*b),
        serde_json::Value::Number(n) => Json::Number(match (n.as_u64(), n.as_i64()) {
            (Some(n), _) => JsonNumber::Unsigned(n),
            (None, Some(n)) => JsonNumber::Negative(n),
            (None, None) => JsonNumber::Real(n.to_string()),
        }),
        serde_json::Value::String(text) => Json::Text(text.clone()),
        serde_json::Value::Array(items) => Json::List(items.iter().map(json_of).collect()),
        serde_json::Value::Object(map) => Json::Object(
            map.iter().map(|(key, value)| JsonEntry { key: key.clone(), value: json_of(value) }).collect(),
        ),
    }
}

fn json(text: &str) -> Json {
    json_of(&serde_json::from_str(text).unwrap())
}

fn value_of(json: &Json) -> serde_json::Value {
    match json {
        Json::Null => serde_json::Value::Null,
        Json::Bool(b) => serde_json::Value::Bool(*b),
        Json::Number(JsonNumber::Unsigned(n)) => serde_json::Value::from(*n),
        Json::Number(JsonNumber::Negative(n)) => serde_json::Value::from(*n),
        Json::Number(JsonNumber::Real(text)) => serde_json::from_str(text).unwrap(),
        Json::Text(text) => serde_json::Value::String(text.clone()),
        Json::List(items) => serde_json::Value::Array(items.iter().map(value_of).collect()),
        Json::Object(entries) => serde_json::Value::Object(
            entries.iter().map(|entry| (entry.key.clone(), value_of(&entry.value))).collect(),
        ),
    }
}


fn world() -> Surroundings {
    Surroundings {
        cwd: "/work/dir".to_string(),
        canonical: vec![CanonicalPath { path: "/work/dir/link".to_string(), canonical: "/real".to_string() }],
    }
}

fn root_input(path: &str) -> RootInput {
    RootInput { path: path.to_string(), default: None, deny: Vec::new(), allow: Vec::new(), blocked: None }
}

fn decoded(roots: Vec<RootInput>) -> Decoded {
    Decoded {
        roots: Ok(roots),
        fastembed: Ok(FastembedConfig { model: None, model_path: "./m".to_string() }),
        ollama: Ok(OllamaConfig { base_url: "http://o".to_string(), model: "m".to_string(), batch: true }),
        openai: Ok(OpenAiConfig { api_key_env: "KEY".to_string(), model: "m".to_string() }),
    }
}

fn changed(settings: &str) -> Result<Config, String> {
    apply_config_override(default_config(&world()), &json(settings), &decoded(Vec::new()), &world())
}

#[test]
fn defaults_are_as_documented() {
    let config = default_config(&world());
    assert_eq!(config.roots.len(), 1);
    assert_eq!(config.roots[0].path, "/work/dir");
    assert_eq!(config.roots[0].path_canon, "/work/dir");
    assert_eq!(config.roots[0].display, "/work/dir");
    assert!(config.roots[0].default);
    assert_eq!(config.default_root, "/work/dir");
    assert_eq!(config.chunk_max_tokens, 300);
    assert_eq!(config.chunk_overlap_tokens, 50);
    assert_eq!(config.watch_debounce_ms, 200);
    assert_eq!(config.language_pack_root, ".mcp-search/languages");
    assert!(config.languages.is_none());
    assert!(config.language_download);
    assert_eq!(config.context, "default");
    assert_eq!(config.embedder.provider, "fastembed");
    assert_eq!(config.embedder.concurrency, 1);
    let local = config.embedder.fastembed.unwrap();
    assert_eq!(local.model, Some("bge-small-en-v1.5".to_string()));
    assert_eq!(local.model_path, "./models/bge");
    assert_eq!(config.lancedb_path, ".mcp-search/lancedb");
    assert!(config.log_path.is_none());
}

#[test]
fn settings_change_the_configuration() {
    let config = changed(
        "{\"chunk_max_tokens\": 12, \"chunk_overlap_tokens\": 0, \"watch_debounce_ms\": 7, \"language_pack_root\": \"/p\",
          \"languages\": [\"rust\", \" \"], \"language_download\": false, \"log_path\": \"x.log\", \"context\": \"c\",
          \"lancedb\": {\"path\": \"/db\"}}",
    )
    .unwrap();
    assert_eq!(config.chunk_max_tokens, 12);
    assert_eq!(config.chunk_overlap_tokens, 0);
    assert_eq!(config.watch_debounce_ms, 7);
    assert_eq!(config.language_pack_root, "/p");
    assert_eq!(config.languages, Some(vec!["rust".to_string()]));
    assert!(!config.language_download);
    assert_eq!(config.log_path, Some("x.log".to_string()));
    assert_eq!(config.context, "c");
    assert_eq!(config.lancedb_path, "/db");
    assert_eq!(config.roots[0].path, "/work/dir");
}

#[test]
fn settings_may_be_left_open() {
    let config = changed("{\"language_download\": null, \"log_path\": null, \"lancedb\": {}}").unwrap();
    assert!(config.language_download);
    assert!(config.log_path.is_none());
    assert_eq!(config.lancedb_path, ".mcp-search/lancedb");
    assert!(changed("{\"log_path\": \"  \"}").unwrap().log_path.is_none());
    assert_eq!(changed("{\"languages\": \"rust\"}").unwrap().languages, Some(vec!["rust".to_string()]));
    assert_eq!(changed("{\"languages\": \"\"}").unwrap().languages, Some(Vec::new()));
}

#[test]
fn a_chunk_may_be_limited_in_characters() {
    let limit = |settings: &str| changed(settings).unwrap().chunk_max_tokens;
    assert_eq!(limit("{\"chunk_max_chars\": 1200}"), 300);
    assert_eq!(limit("{\"chunk_max_chars\": 403}"), 100);
    assert_eq!(limit("{\"chunk_max_chars\": 3}"), 1);
    assert_eq!(limit("{\"chunk_max_chars\": 0}"), 0);
    assert_eq!(limit("{\"chunk_max_chars\": 400, \"chunk_max_tokens\": 7}"), 7);
    assert_eq!(limit("{\"chunk_max_tokens\": 7, \"chunk_max_chars\": 400}"), 7);
}

#[test]
fn data_root_holds_packs_and_store() {
    let config = changed("{\"data_root\": \"/data\"}").unwrap();
    assert_eq!(config.language_pack_root, "/data/languages");
    assert_eq!(config.lancedb_path, "/data/lancedb");
    let config = changed("{\"data_root\": \"/data\", \"language_pack_root\": \"/packs\"}").unwrap();
    assert_eq!(config.language_pack_root, "/packs");
    assert_eq!(config.lancedb_path, "/data/lancedb");
    let config = changed("{\"data_root\": \"/data\", \"lancedb\": {\"path\": \"/db\"}}").unwrap();
    assert_eq!(config.language_pack_root, "/data/languages");
    assert_eq!(config.lancedb_path, "/db");
}

#[test]
fn wrong_settings_are_refused() {
    for (settings, message) in [
        ("[]", "config must be an object"),
        ("{\"nope\": 1}", "unknown config key: nope"),
        ("{\"chunk_max_chars\": \"x\"}", "chunk_max_chars must be an integer"),
        ("{\"chunk_max_tokens\": \"x\"}", "chunk_max_tokens must be an integer"),
        ("{\"chunk_max_tokens\": -1}", "chunk_max_tokens must be an integer"),
        ("{\"chunk_overlap_tokens\": 1.5}", "chunk_overlap_tokens must be an integer"),
        ("{\"watch_debounce_ms\": null}", "watch_debounce_ms must be an integer"),
        ("{\"language_pack_root\": 1}", "language_pack_root must be a string"),
        ("{\"data_root\": 1}", "data_root must be a string"),
        ("{\"languages\": 1}", "languages must be a string or array of strings"),
        ("{\"languages\": [1]}", "languages must be strings"),
        ("{\"language_download\": 1}", "language_download must be a boolean"),
        ("{\"log_path\": 1}", "log_path must be a string"),
        ("{\"context\": 1}", "context must be a string"),
        ("{\"context\": \" \"}", "context must not be empty"),
        ("{\"lancedb\": 1}", "lancedb must be an object"),
        ("{\"lancedb\": {\"path\": 1}}", "lancedb.path must be a string"),
        ("{\"embedder\": 1}", "embedder must be an object"),
    ] {
        assert_eq!(changed(settings).unwrap_err(), message);
    }
}

#[test]
fn roots_are_made_absolute() {
    let mut inputs = vec![root_input("src/../lib"), root_input("/abs/./x"), root_input("link")];
    inputs[2].default = Some(true);
    inputs[0].deny = vec!["*.o".to_string()];
    inputs[0].allow = vec!["*.rs".to_string()];
    let config = apply_config_override(
        default_config(&world()),
        &json("{\"roots\": []}"),
        &decoded(inputs),
        &world(),
    )
    .unwrap();
    let told: Vec<(&str, &str, &str, bool)> = config
        .roots
        .iter()
        .map(|r| (r.path.as_str(), r.path_canon.as_str(), r.display.as_str(), r.default))
        .collect();
    assert_eq!(
        told,
        vec![
            ("/work/dir/lib", "/work/dir/lib", "lib", false),
            ("/abs/x", "/abs/x", "/abs/./x", false),
            ("/work/dir/link", "/real", "link", true),
        ]
    );
    assert_eq!(config.roots[0].deny, vec!["*.o"]);
    assert_eq!(config.roots[0].allow, vec!["*.rs"]);
    assert_eq!(config.default_root, "/work/dir/link");
    assert_eq!(config.default_root_canon, "/real");
}

#[test]
fn exactly_one_root_is_the_default() {
    let mut inputs = vec![root_input("/a"), root_input("/b"), root_input("/c")];
    let roots = build_root_configs(&inputs, &world()).unwrap();
    let (roots, default, canon) = finalize_roots(roots).unwrap();
    assert_eq!(roots.iter().map(|r| r.default).collect::<Vec<_>>(), vec![true, false, false]);
    assert_eq!((default.as_str(), canon.as_str()), ("/a", "/a"));
    inputs[1].default = Some(true);
    inputs[2].default = Some(true);
    let (roots, default, _) = finalize_roots(build_root_configs(&inputs, &world()).unwrap()).unwrap();
    assert_eq!(roots.iter().map(|r| r.default).collect::<Vec<_>>(), vec![false, true, false]);
    assert_eq!(default, "/b");
    assert_eq!(finalize_roots(Vec::new()).unwrap_err(), "roots are required");
}

#[test]
fn blocked_roots_belong_to_a_policy() {
    let mut input = root_input("/a");
    input.blocked = Some(false);
    assert_eq!(
        build_root_configs(&vec![input], &world()).unwrap_err(),
        "root.blocked is only allowed in policy"
    );
}

#[test]
fn empty_roots_switch_indexing_off() {
    let config = changed("{\"roots\": []}").unwrap();
    assert!(config.roots.is_empty());
    assert_eq!(config.default_root, "/work/dir");
}

#[test]
fn unreadable_roots_are_told() {
    let mut given = decoded(Vec::new());
    given.roots = Err("missing field `path`".to_string());
    let out = apply_config_override(default_config(&world()), &json("{\"roots\": [{}]}"), &given, &world());
    assert_eq!(out.unwrap_err(), "invalid roots: missing field `path`");
}

#[test]
fn embedder_settings_are_read() {
    let all = decoded(Vec::new());
    let config = parse_embedder_config(&json("{\"provider\": \"ollama\", \"ollama\": {}, \"concurrency\": 4}"), &all).unwrap();
    assert_eq!(config.provider, "ollama");
    assert_eq!(config.concurrency, 4);
    assert!(config.fastembed.is_none());
    assert!(config.openai.is_none());
    assert!(config.ollama.unwrap().batch);
    let config = parse_embedder_config(&json("{\"provider\": \"openai\", \"openai\": {}, \"fastembed\": {}}"), &all).unwrap();
    assert_eq!(config.concurrency, 1);
    assert!(config.fastembed.is_some());
}

#[test]
fn wrong_embedder_settings_are_refused() {
    let mut bad = decoded(Vec::new());
    bad.fastembed = Ok(FastembedConfig { model: None, model_path: " ".to_string() });
    bad.ollama = Ok(OllamaConfig { base_url: "x".to_string(), model: "".to_string(), batch: false });
    bad.openai = Ok(OpenAiConfig { api_key_env: "".to_string(), model: "m".to_string() });
    for (settings, message) in [
        ("{}", "embedder.provider is required"),
        ("{\"provider\": 1}", "embedder.provider is required"),
        ("{\"provider\": \"x\"}", "unknown embedder provider: x"),
        ("{\"provider\": \"x\", \"concurrency\": true}", "embedder.concurrency must be an integer"),
        ("{\"provider\": \"fastembed\"}", "embedder.fastembed is required when provider is fastembed"),
        ("{\"provider\": \"ollama\"}", "embedder.ollama is required when provider is ollama"),
        ("{\"provider\": \"openai\"}", "embedder.openai is required when provider is openai"),
        ("{\"provider\": \"fastembed\", \"fastembed\": {}}", "embedder.fastembed.model_path is required"),
        (
            "{\"provider\": \"ollama\", \"ollama\": {}}",
            "embedder.ollama.base_url and embedder.ollama.model are required",
        ),
        (
            "{\"provider\": \"openai\", \"openai\": {}}",
            "embedder.openai.api_key_env and embedder.openai.model are required",
        ),
    ] {
        assert_eq!(parse_embedder_config(&json(settings), &bad).unwrap_err(), message);
    }
    let mut broken = decoded(Vec::new());
    broken.fastembed = Err("a".to_string());
    broken.ollama = Err("b".to_string());
    broken.openai = Err("c".to_string());
    for (settings, message) in [
        ("{\"provider\": \"x\", \"fastembed\": 1}", "invalid embedder.fastembed: a"),
        ("{\"provider\": \"x\", \"ollama\": 1}", "invalid embedder.ollama: b"),
        ("{\"provider\": \"x\", \"openai\": 1}", "invalid embedder.openai: c"),
    ] {
        assert_eq!(parse_embedder_config(&json(settings), &broken).unwrap_err(), message);
    }
}

#[test]
fn plain_values_are_read() {
    assert_eq!(parse_usize_value(&json("7"), "n"), Ok(7));
    assert_eq!(parse_u64_value(&json("18446744073709551615"), "n"), Ok(u64::MAX));
    assert_eq!(parse_string_list(&json("[\"a\", \"\", \"b\"]"), "n").unwrap(), vec!["a", "b"]);
    assert_eq!(canonicalize_or_self("/work/dir/link", &world().canonical), "/real");
    assert_eq!(canonicalize_or_self("/other", &world().canonical), "/other");
}

#[test]
fn initialize_takes_the_settings() {
    let mut config = default_config(&world());
    let params = "{\"capabilities\": {\"experimental\": {\"configuration\": {\"context\": \"two\"}}}}";
    let mut req = Request { id: json("1"), method: "initialize".to_string(), params: json(params) };
    assert!(find_settings(&req.params).is_some());
    assert_eq!(apply_initialize_config(&mut config, &req, &decoded(Vec::new()), &world()), Ok(()));
    assert_eq!(config.context, "two");
    req.params = json("{\"capabilities\": {}}");
    assert!(find_settings(&req.params).is_none());
    assert_eq!(apply_initialize_config(&mut config, &req, &decoded(Vec::new()), &world()), Ok(()));
    assert_eq!(config.context, "two");
    req.params = json("{\"capabilities\": {\"experimental\": {\"configuration\": {\"context\": \"\"}}}}");
    assert!(apply_initialize_config(&mut config, &req, &decoded(Vec::new()), &world()).is_err());
    assert_eq!(config.context, "two");
}

#[test]
fn schema_describes_the_settings() {
    let schema = value_of(&config_schema());
    assert_eq!(schema["title"], "mcp-search configuration");
    assert_eq!(schema["additionalProperties"], false);
    assert_eq!(schema["required"], serde_json::Value::Array(Vec::new()));
    let properties = schema["properties"].as_object().unwrap();
    let mut keys: Vec<&str> = properties.keys().map(|k| k.as_str()).collect();
    keys.sort();
    assert_eq!(
        keys,
        vec![
            "chunk_max_chars", "chunk_max_tokens", "chunk_overlap_tokens", "context", "data_root", "embedder", "lancedb",
            "language_download", "language_pack_root", "languages", "log_path", "roots", "watch_debounce_ms",
        ]
    );
    assert_eq!(properties["chunk_max_tokens"]["default"], 300);
    assert_eq!(properties["chunk_max_tokens"]["minimum"], 1);
    let config = default_config(&world());
    assert_eq!(properties["chunk_overlap_tokens"]["default"], config.chunk_overlap_tokens);
    assert_eq!(properties["watch_debounce_ms"]["default"], config.watch_debounce_ms);
    assert_eq!(properties["language_pack_root"]["default"], config.language_pack_root);
    assert_eq!(properties["context"]["default"], config.context);
    assert_eq!(properties["language_download"]["default"], config.language_download);
    assert_eq!(properties["lancedb"]["properties"]["path"]["default"], config.lancedb_path);
    let embedder = &properties["embedder"]["properties"];
    assert_eq!(embedder["concurrency"]["default"], config.embedder.concurrency);
    assert_eq!(properties["roots"]["items"]["properties"]["blocked"]["scope"], "policy");
    assert_eq!(properties["roots"]["items"]["required"][0], "path");
    assert_eq!(properties["embedder"]["properties"]["provider"]["enum"][2], "openai");
    assert_eq!(properties["embedder"]["properties"]["ollama"]["properties"]["batch"]["default"], false);
}
