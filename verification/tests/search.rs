use mcp_search::config::{default_config, Config, RootConfig, RootInput, Surroundings};
use mcp_search::globs::{build_glob_set, is_match};
use mcp_search::json::{Json, JsonEntry, JsonNumber};
use mcp_search::policy::{build_call_root, resolve_call_config, CallConfig};
use mcp_search::search::{
    build_filter, filter_results, matches_language, plan_search, query_vector, search_payload,
    strip_chunk_header,
};
use mcp_search::store::{search, Column, FoundColumns, RootFilter, SearchFilter, SearchResult};
use mcp_search::types::{Chunk, ChunkMetadata};

fn json_of(value: &serde_json::Value) -> Json {
    match value {
        serde_json::Value::Null => Json::Null,
        serde_json::Value::Bool(b) => Json::Bool(*b),
        serde_json::Value::Number(n) => Json::Number(match (n.as_u64(), n.as_i64()) {
            (Some(n), _) => JsonNumber::Unsigned(n),
            (None, Some(n)) => JsonNumber::Negative(n),
            (None, None) => JsonNumber::Real(n.to_string()),
        }),
        serde_json::Value::String(text) => Json::Text(text.clone()),
        serde_json::Value::Array(items) => Json::List(items.iter().map(json_of).collect()),
        serde_json::Value::Object(map) => Json::Object(
            map.iter().map(|(key, value)| JsonEntry { key: key.clone(), value: json_of(value) }).collect(),
        ),
    }
}

fn json(text: &str) -> Json {
    json_of(&serde_json::from_str(text).unwrap())
}

fn value_of(json: &Json) -> serde_json::Value {
    match json {
        Json::Null => serde_json::Value::Null,
        Json::Bool(b) => serde_json::Value::Bool(*b),
        Json::Number(JsonNumber::Unsigned(n)) => serde_json::Value::from(*n),
        Json::Number(JsonNumber::Negative(n)) => serde_json::Value::from(*n),
        Json::Number(JsonNumber::Real(text)) => serde_json::from_str(text).unwrap(),
        Json::Text(text) => serde_json::Value::String(text.clone()),
        Json::List(items) => serde_json::Value::Array(items.iter().map(value_of).collect()),
        Json::Object(entries) => serde_json::Value::Object(
            entries.iter().map(|entry| (entry.key.clone(), value_of(&entry.value))).collect(),
        ),
    }
}

fn same(json: &Json, text: &str) {
    assert_eq!(value_of(json), serde_json::from_str::<serde_json::Value>(text).unwrap());
}

fn texts(list: &[&str]) -> Vec<String> {
    list.iter().map(|text| text.to_string()).collect()
}

fn config() -> Config {
    let mut config =
        default_config(&Surroundings { cwd: "/work".to_string(), canonical: Vec::new() });
    config.roots.push(RootConfig {
        path: "/other".to_string(),
        path_canon: "/real/other".to_string(),
        display: "/other".to_string(),
        default: false,
        deny: texts(&["*.tmp"]),
        allow: texts(&["**/*.rs", "*.tmp"]),
    });
    config
}

fn input(path: &str) -> RootInput {
    RootInput { path: path.to_string(), default: None, deny: Vec::new(), allow: Vec::new(), blocked: None }
}

fn resolve(meta: &str, inputs: Vec<RootInput>) -> Result<CallConfig, String> {
    resolve_call_config(&config(), &json(meta), &Ok(inputs), &Some("/work".to_string()))
}

fn found(path: &str, language: &str, text: &str) -> SearchResult {
    SearchResult {
        chunk: Chunk {
            id: "id".to_string(),
            text: text.to_string(),
            metadata: ChunkMetadata {
                file_path: path.to_string(),
                language: language.to_string(),
                node_kind: "file".to_string(),
                start_line: 1,
                end_line: 2,
                parent_context: None,
            },
        },
        score: json("0.5"),
    }
}

fn columns(rows: &[(&str, &str)]) -> FoundColumns {
    FoundColumns {
        rows: rows.len(),
        chunk_id: Column::Values(rows.iter().enumerate().map(|(i, _)| i.to_string()).collect()),
        file_path: Column::Values(rows.iter().map(|row| row.0.to_string()).collect()),
        language: Column::Values(rows.iter().map(|row| row.1.to_string()).collect()),
        node_kind: Column::Values(rows.iter().map(|_| "file".to_string()).collect()),
        start_line: Column::Values(rows.iter().map(|_| 3).collect()),
        end_line: Column::Values(rows.iter().map(|_| 4).collect()),
        parent_context: Column::Values(rows.iter().map(|_| Some("a.b".to_string())).collect()),
        text: Column::Values(rows.iter().map(|row| format!("text of {}", row.0)).collect()),
        scores: rows.iter().map(|_| json("0.25")).collect(),
    }
}

fn open_root(path: &str) -> RootFilter {
    RootFilter { path: path.to_string(), allow: Vec::new(), deny: Vec::new() }
}

fn paths(results: &[SearchResult]) -> Vec<&str> {
    results.iter().map(|r| r.chunk.metadata.file_path.as_str()).collect()
}

#[test]
fn globs_match_whole_paths() {
    let set = build_glob_set(&texts(&["*.rs", "docs/**"])).unwrap().unwrap();
    assert!(is_match(&set, "main.rs"));
    assert!(is_match(&set, "src/main.rs"));
    assert!(is_match(&set, "docs/a/b.md"));
    assert!(!is_match(&set, "main.rsx"));
    assert!(build_glob_set(&Vec::new()).unwrap().is_none());
}

#[test]
fn a_bad_glob_is_told() {
    let message = build_glob_set(&texts(&["ok", "a["])).unwrap_err();
    let expected = globset::Glob::new("a[").unwrap_err();
    assert_eq!(message, format!("invalid glob a[: {}", expected));
    let mut bad = config();
    bad.roots[0].deny = texts(&["{"]);
    assert!(build_call_root(&bad.roots[0]).is_err());
    assert!(resolve_call_config(&bad, &json("{}"), &Ok(Vec::new()), &None).is_err());
}

#[test]
fn without_a_policy_all_roots_are_searched() {
    let call = resolve("{}", Vec::new()).unwrap();
    assert_eq!(call.roots.iter().map(|r| r.path.as_str()).collect::<Vec<_>>(), vec!["/work", "/other"]);
    assert!(call.roots[0].default);
    assert!(!call.roots[1].default);
    assert!(call.roots[0].deny_set.is_none());
    assert!(call.roots[1].deny_set.is_some());
    assert!(call.max_results.is_none());
    assert!(call.max_bytes.is_none());
}

#[test]
fn a_policy_narrows_the_call() {
    let mut blocked = input("/other");
    blocked.blocked = Some(true);
    let mut narrowed = input("./sub/..");
    narrowed.deny = texts(&["secret*"]);
    narrowed.allow = texts(&["*.md"]);
    let call = resolve(
        "{\"policy\": {\"roots\": [], \"allow\": \"*.rs\", \"deny\": [\"x\"], \"languages\": [\"rust\"],
           \"deny_languages\": [\"java\"], \"max_results\": 3, \"max_bytes\": 100}}",
        vec![blocked, narrowed],
    )
    .unwrap();
    assert_eq!(call.roots.len(), 1);
    assert_eq!(call.roots[0].path, "/work");
    assert_eq!(call.roots[0].deny, vec!["secret*"]);
    assert!(call.roots[0].allow.is_empty());
    assert_eq!(call.roots[0].policy_allow, vec![vec!["*.md"]]);
    assert!(is_match(call.roots[0].deny_set.as_ref().unwrap(), "secret.txt"));
    assert_eq!(call.allow_globs, vec!["*.rs"]);
    assert_eq!(call.deny_globs, vec!["x"]);
    assert_eq!(call.allow_languages, vec!["rust"]);
    assert_eq!(call.deny_languages, vec!["java"]);
    assert_eq!(call.max_results, Some(3));
    assert_eq!(call.max_bytes, Some(100));
}

#[test]
fn a_policy_cannot_widen_a_root() {
    let mut all = input("/other");
    all.allow = texts(&["**"]);
    let call = resolve("{\"policy\": {\"roots\": [], \"allow\": \"**\"}}", vec![all]).unwrap();
    let rows = columns(&[("/other/a.rs", "rust"), ("/other/a.txt", "text"), ("/other/x.tmp", "text")]);
    assert_eq!(paths(&search(&vec![rows], &build_filter(&call)).unwrap()), vec!["/other/a.rs"]);
    let mut bad = input("/other");
    bad.allow = texts(&["["]);
    assert!(resolve("{\"policy\": {\"roots\": []}}", vec![bad]).is_err());
}

#[test]
fn each_root_has_its_own_patterns() {
    let mut own = config();
    own.roots[0].allow = texts(&["src/**"]);
    own.roots[1].allow = texts(&["docs/**"]);
    own.roots[1].deny = texts(&["docs/old/**"]);
    let call = resolve_call_config(&own, &json("{}"), &Ok(Vec::new()), &None).unwrap();
    let rows = columns(&[
        ("/work/src/a", "x"),
        ("/work/docs/a", "x"),
        ("/other/src/a", "x"),
        ("/other/docs/a", "x"),
        ("/other/docs/old/a", "x"),
    ]);
    assert_eq!(
        paths(&search(&vec![rows], &build_filter(&call)).unwrap()),
        vec!["/work/src/a", "/other/docs/a"]
    );
}

#[test]
fn roots_are_found_by_either_path() {
    let mut by_real = input("/real/other");
    by_real.blocked = Some(true);
    let call = resolve("{\"policy\": {\"roots\": []}}", vec![by_real]).unwrap();
    assert_eq!(call.roots.len(), 1);
    let mut kept = input("/other");
    kept.blocked = Some(false);
    let call = resolve("{\"policy\": {\"roots\": []}}", vec![kept]).unwrap();
    assert_eq!(call.roots.len(), 2);
}

#[test]
fn wrong_policies_are_refused() {
    for (meta, message) in [
        ("{\"policy\": 1}", "policy must be an object"),
        ("{\"policy\": {\"x\": 1}}", "unknown policy key: x"),
        ("{\"policy\": {\"allow\": 1}}", "allow must be a string or array of strings"),
        ("{\"policy\": {\"deny\": [1]}}", "deny must be strings"),
        ("{\"policy\": {\"languages\": 1}}", "languages must be a string or array of strings"),
        ("{\"policy\": {\"deny_languages\": 1}}", "deny_languages must be a string or array of strings"),
        ("{\"policy\": {\"max_results\": \"1\"}}", "max_results must be an integer"),
        ("{\"policy\": {\"max_bytes\": -1}}", "max_bytes must be an integer"),
    ] {
        assert_eq!(resolve(meta, Vec::new()).unwrap_err(), message);
    }
    let meta = "{\"policy\": {\"roots\": []}}";
    let mut default = input("/work");
    default.default = Some(false);
    assert_eq!(resolve(meta, vec![default]).unwrap_err(), "policy roots must not include default");
    assert_eq!(resolve(meta, vec![input("nowhere")]).unwrap_err(), "policy root not found: nowhere");
    let mut blocked = input("/work");
    blocked.blocked = Some(true);
    assert_eq!(resolve(meta, vec![blocked]).unwrap_err(), "policy cannot block the default root");
    let out = resolve_call_config(&config(), &json(meta), &Err("bad".to_string()), &None);
    assert_eq!(out.unwrap_err(), "invalid policy roots: bad");
}

#[test]
fn searches_are_planned() {
    let plan = |arguments: &str, meta: &str| {
        plan_search(&config(), &json(arguments), &json(meta), &Ok(Vec::new()), &None)
    };
    let made = plan("{\"query\": \"q\"}", "{}").unwrap();
    assert_eq!((made.query.as_str(), made.top_k, made.call.roots.len()), ("q", 5, 2));
    assert_eq!(plan("{\"query\": \"q\", \"limit\": 9}", "{}").unwrap().top_k, 9);
    assert_eq!(plan("{\"query\": \"q\", \"limit\": 9}", "{\"policy\": {\"max_results\": 2}}").unwrap().top_k, 2);
    assert_eq!(plan("{\"query\": \"q\", \"limit\": 1}", "{\"policy\": {\"max_results\": 2}}").unwrap().top_k, 1);
    assert_eq!(plan("{}", "{}").unwrap_err(), "query is required");
    assert_eq!(plan("{\"query\": 1}", "{}").unwrap_err(), "query is required");
    assert_eq!(plan("{\"query\": \"q\"}", "{\"policy\": 1}").unwrap_err(), "policy must be an object");
    let mut empty = config();
    empty.roots = Vec::new();
    let out = plan_search(&empty, &json("{\"query\": \"q\"}"), &json("{}"), &Ok(Vec::new()), &None);
    assert_eq!(out.unwrap_err(), "no roots configured");
}

#[test]
fn one_vector_is_searched_for() {
    assert_eq!(query_vector(vec![vec![1, 2], vec![3]]), Ok(vec![1, 2]));
    assert_eq!(query_vector::<u8>(Vec::new()).unwrap_err(), "embedder returned no vectors");
}

#[test]
fn filter_keeps_the_patterns_of_roots_apart() {
    let mut narrowed = input("/other");
    narrowed.allow = texts(&["z"]);
    let call = resolve(
        "{\"policy\": {\"roots\": [], \"allow\": [\"x\"], \"deny\": [\"y\"], \"languages\": \"rust\",
           \"deny_languages\": \"java\", \"max_results\": 1, \"max_bytes\": 2}}",
        vec![narrowed],
    )
    .unwrap();
    let filter = build_filter(&call);
    assert_eq!(filter.allowed_roots.len(), 2);
    assert_eq!(filter.allowed_roots[0].path, "/work");
    assert_eq!(filter.allowed_roots[0].allow, vec![Vec::<String>::new()]);
    assert!(filter.allowed_roots[0].deny.is_empty());
    assert_eq!(filter.allowed_roots[1].path, "/other");
    assert_eq!(filter.allowed_roots[1].allow, vec![vec!["**/*.rs", "*.tmp"], vec!["z"]]);
    assert_eq!(filter.allowed_roots[1].deny, vec!["*.tmp"]);
    assert_eq!(filter.allow_globs, vec!["x"]);
    assert_eq!(filter.deny_globs, vec!["y"]);
    assert_eq!(filter.allow_languages, vec!["rust"]);
    assert_eq!(filter.deny_languages, vec!["java"]);
    assert_eq!(filter.max_results, Some(1));
    assert_eq!(filter.max_bytes, Some(2));
}

#[test]
fn headers_are_stripped() {
    assert_eq!(strip_chunk_header("FILE: x\nLANG: y\n\nbody\n\nmore"), "body\n\nmore");
    assert_eq!(strip_chunk_header("FILE: x\r\n\r\nbody"), "body");
    assert_eq!(strip_chunk_header("no header"), "no header");
    assert_eq!(strip_chunk_header("a\r\n\r\nb\n\nc"), "c");
}

#[test]
fn languages_are_checked() {
    let call = resolve("{\"policy\": {\"languages\": [\"rust\", \"java\"], \"deny_languages\": [\"java\"]}}", Vec::new()).unwrap();
    assert!(matches_language(&found("/work/a", "rust", ""), &call));
    assert!(!matches_language(&found("/work/a", "java", ""), &call));
    assert!(!matches_language(&found("/work/a", "xml", ""), &call));
    let open = resolve("{}", Vec::new()).unwrap();
    assert!(matches_language(&found("/work/a", "xml", ""), &open));
}

#[test]
fn results_are_capped() {
    let all = || vec![found("/a", "rust", "aaaa"), found("/b", "rust", "bbbb"), found("/c", "rust", "cc")];
    let cap = |policy: &str| resolve(policy, Vec::new()).unwrap();
    assert_eq!(paths(&filter_results(all(), &cap("{}"))), vec!["/a", "/b", "/c"]);
    assert_eq!(paths(&filter_results(all(), &cap("{\"policy\": {\"max_results\": 2}}"))), vec!["/a", "/b"]);
    assert_eq!(paths(&filter_results(all(), &cap("{\"policy\": {\"max_bytes\": 8}}"))), vec!["/a", "/b"]);
    assert_eq!(paths(&filter_results(all(), &cap("{\"policy\": {\"max_bytes\": 7}}"))), vec!["/a"]);
    assert!(filter_results(all(), &cap("{\"policy\": {\"max_bytes\": 3}}")).is_empty());
    assert!(filter_results(all(), &cap("{\"policy\": {\"max_results\": 0}}")).is_empty());
}

#[test]
fn payload_shows_text_and_place() {
    let call = resolve("{}", Vec::new()).unwrap();
    let payload = search_payload(vec![found("/work/a", "rust", "FILE: /work/a\n\nbody")], &call);
    same(
        &payload,
        "{\"matches\": [{\"score\": 0.5, \"text\": \"body\", \"metadata\": {\"file_path\": \"/work/a\",
           \"language\": \"rust\", \"node_kind\": \"file\", \"start_line\": 1, \"end_line\": 2,
           \"parent_context\": null}}], \"count\": 1}",
    );
    same(&search_payload(Vec::new(), &call), "{\"matches\": [], \"count\": 0}");
}

#[test]
fn rows_outside_the_roots_are_dropped() {
    let mut filter = SearchFilter::default();
    filter.allowed_roots = vec![open_root("/work"), open_root("/other")];
    let rows = columns(&[("/work/a.rs", "rust"), ("/elsewhere/a.rs", "rust"), ("/workshop/a.rs", "rust"), ("/other/b", "x")]);
    let results = search(&vec![rows], &filter).unwrap();
    assert_eq!(paths(&results), vec!["/work/a.rs", "/other/b"]);
    assert_eq!(results[0].chunk.id, "0");
    assert_eq!(results[1].chunk.id, "3");
    assert_eq!(results[1].chunk.text, "text of /other/b");
    assert_eq!(results[0].chunk.metadata.start_line, 3);
    assert_eq!(results[0].chunk.metadata.end_line, 4);
    assert_eq!(results[0].chunk.metadata.parent_context, Some("a.b".to_string()));
    same(&results[0].score, "0.25");
}

#[test]
fn rows_are_filtered_by_globs_and_language() {
    let mut filter = SearchFilter::default();
    filter.allowed_roots = vec![open_root("/work")];
    filter.allow_globs = texts(&["*.rs", "*.md"]);
    filter.deny_globs = texts(&["gen/**"]);
    filter.deny_languages = texts(&["markdown"]);
    let rows = columns(&[
        ("/work/a.rs", "rust"),
        ("/work/gen/b.rs", "rust"),
        ("/work/c.txt", "rust"),
        ("/work/d.md", "markdown"),
        ("/work", "rust"),
    ]);
    assert_eq!(paths(&search(&vec![rows], &filter).unwrap()), vec!["/work/a.rs", "/work"]);
    filter.allow_globs = Vec::new();
    filter.allow_languages = texts(&["markdown", "rust"]);
    let rows = columns(&[("/work/c.txt", "rust"), ("/work/e", "xml")]);
    assert_eq!(paths(&search(&vec![rows], &filter).unwrap()), vec!["/work/c.txt"]);
}

#[test]
fn without_roots_every_row_passes() {
    let filter = SearchFilter::default();
    let first = columns(&[("/a", "rust")]);
    let second = columns(&[("content://x", "json")]);
    assert_eq!(paths(&search(&vec![first, second], &filter).unwrap()), vec!["/a", "content://x"]);
}

#[test]
fn faulty_columns_are_told() {
    let filter = SearchFilter::default();
    let one = || columns(&[("/a", "rust")]);
    let mut faults: Vec<(FoundColumns, &str)> = Vec::new();
    for (i, name) in ["chunk_id", "file_path", "language", "node_kind", "text"].iter().enumerate() {
        for missing in [true, false] {
            let fault = || if missing { Column::Missing } else { Column::Mistyped };
            let mut rows = one();
            match i {
                0 => rows.chunk_id = fault(),
                1 => rows.file_path = fault(),
                2 => rows.language = fault(),
                3 => rows.node_kind = fault(),
                _ => rows.text = fault(),
            }
            let expected = if missing { format!("missing {} column", name) } else { format!("{} column type", name) };
            assert_eq!(search(&vec![rows], &filter).unwrap_err(), expected);
        }
    }
    let mut rows = one();
    rows.start_line = Column::Missing;
    faults.push((rows, "missing start_line column"));
    let mut rows = one();
    rows.end_line = Column::Mistyped;
    faults.push((rows, "end_line column type"));
    let mut rows = one();
    rows.parent_context = Column::Missing;
    faults.push((rows, "missing parent_context column"));
    for (rows, message) in faults {
        assert_eq!(search(&vec![rows], &filter).unwrap_err(), message);
    }
    let mut bad = SearchFilter::default();
    bad.allow_globs = texts(&["["]);
    assert!(search(&Vec::new(), &bad).is_err());
    let mut bad = SearchFilter::default();
    bad.allowed_roots = vec![open_root("/a")];
    bad.allowed_roots[0].deny = texts(&["["]);
    assert!(search(&Vec::new(), &bad).is_err());
    bad.allowed_roots[0].deny = Vec::new();
    bad.allowed_roots[0].allow = vec![texts(&["a"]), texts(&["["])];
    assert!(search(&Vec::new(), &bad).is_err());
}
