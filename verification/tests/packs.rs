use mcp_search::json::{Json, JsonEntry, JsonNumber};
use mcp_search::langpacks::{
    expected_asset_name, find_asset, known_languages, language_toml, latest_url, library_suffix,
    locate_pack, manual_download_notes, missing_part, os_name, pack_wanted, parser_action,
    query_action, resolve_enabled, resolve_parser_path, sync_language, sync_language_packs,
    temp_path, ConfigFault, LanguageConfig, LanguageQueries, ParserAction, QueryAction, SyncEvent,
    SyncPlan, SyncState,
};
use mcp_search::logger::{
    adopt, configure, error, info, log_file_path, resolve_log_path, resolve_log_target, warn,
};
use mcp_search::parser::{
    build_registry, chunk_source_with_limits, detect_language, detect_language_by_name,
    load_language, parse_source, symbol_name, try_chunk_source, LoadedLanguage,
};
use mcp_search::search::strip_chunk_header;

fn json_of(value: &serde_json::Value) -> Json {
    match value {
        serde_json::Value::Null => Json::Null,
        serde_json::Value::Bool(b) => Json::Bool(*b),
        serde_json::Value::Number(n) => Json::Number(match (n.as_u64(), n.as_i64()) {
            (Some(n), _) => JsonNumber::Unsigned(n),
            (None, Some(n)) => JsonNumber::Negative(n),
            (None, None) => JsonNumber::Real(n.to_string()),
        }),
        serde_json::Value::String(text) => Json::Text(text.clone()),
        serde_json::Value::Array(items) => Json::List(items.iter().map(json_of).collect()),
        serde_json::Value::Object(map) => Json::Object(
            map.iter().map(|(key, value)| JsonEntry { key: key.clone(), value: json_of(value) }).collect(),
        ),
    }
}

fn json(text: &str) -> Json {
    json_of(&serde_json::from_str(text).unwrap())
}

fn texts(list: &[&str]) -> Vec<String> {
    list.iter().map(|text| text.to_string()).collect()
}

fn language_config(name: &str, extensions: &[&str], custom: Option<bool>) -> LanguageConfig {
    LanguageConfig {
        name: name.to_string(),
        extensions: texts(extensions),
        parser: format!("tree-sitter-{}-{{os}}-{{arch}}{{ext}}", name),
        custom,
        queries: LanguageQueries { structural: "queries.scm".to_string() },
    }
}

fn json_language(name: &str, extensions: &[&str]) -> LoadedLanguage {
    load_language(
        &language_config(name, extensions, None),
        tree_sitter::Language::from(tree_sitter_json::LANGUAGE),
        "(pair) @structural",
    )
    .unwrap_or_else(|message| panic!("{}", message))
}

fn rust_plan(allow_download: bool) -> SyncPlan {
    let mut plans = sync_language_packs("/packs", &Some(texts(&["RUST"])), allow_download);
    assert_eq!(plans.len(), 1);
    plans.pop().unwrap()
}

#[test]
fn eleven_languages_are_known() {
    let all = known_languages();
    assert_eq!(
        all.iter().map(|l| l.name.as_str()).collect::<Vec<_>>(),
        vec!["css", "html", "java", "json", "markdown", "rhai", "rust", "sql", "typescript", "vue", "xml"]
    );
    assert!(all.iter().all(|l| l.repo == format!("neatify-tech/tree-sitter-{}", l.name)));
    assert_eq!(all[8].extensions, vec!["ts", "tsx"]);
    assert_eq!(all[10].extensions, vec!["xml", "xsd", "xsl", "xslt"]);
    assert_eq!(all[10].query, "(element) @structural\n");
    assert_eq!(all[3].query, "(object) @structural\n(array) @structural\n(pair) @structural\n");
}

#[test]
fn languages_are_enabled_by_name() {
    assert!(resolve_enabled("rust", &None));
    assert!(resolve_enabled("rust", &Some(Vec::new())));
    assert!(resolve_enabled("rust", &Some(texts(&["java", "Rust"]))));
    assert!(!resolve_enabled("rust", &Some(texts(&["java"]))));
    assert_eq!(sync_language_packs("/packs", &None, true).len(), 11);
    assert_eq!(sync_language_packs("/packs", &Some(texts(&["nope"])), true).len(), 0);
}

#[test]
fn packs_are_wanted_by_name() {
    assert!(pack_wanted("Rust", &None));
    assert!(pack_wanted("Rust", &Some(texts(&["RUST"]))));
    assert!(pack_wanted("\u{c4}x", &Some(texts(&["\u{e4}X"]))));
    assert!(!pack_wanted("rust", &Some(Vec::new())));
}

#[test]
fn parser_files_are_named_by_platform() {
    assert_eq!(os_name("macos"), "darwin");
    assert_eq!(os_name("linux"), "linux");
    assert_eq!(library_suffix("windows"), ".dll");
    assert_eq!(library_suffix("macos"), ".dylib");
    assert_eq!(library_suffix("freebsd"), ".so");
    assert_eq!(expected_asset_name("typescript", "linux", "x86_64"), "tree-sitter-typescript-linux-x86_64.so");
    assert_eq!(
        resolve_parser_path("/packs/x", "p-{os}-{arch}{ext}", "macos", "aarch64"),
        "/packs/x/p-darwin-aarch64.dylib"
    );
    assert_eq!(resolve_parser_path("/packs/x", "/abs{ext}", "windows", "x86_64"), "/abs.dll");
}

#[test]
fn pack_files_are_planned() {
    let plan = rust_plan(true);
    assert_eq!(plan.pack_root, "/packs/rust");
    assert_eq!(plan.config_path, "/packs/rust/language.toml");
    assert_eq!(plan.query_path, "/packs/rust/queries.scm");
    assert!(plan.allow_download);
    assert_eq!(
        language_toml(&known_languages()[8]),
        "name = \"typescript\"\nextensions = [\"ts\", \"tsx\"]\nparser = \"tree-sitter-typescript-{os}-{arch}{ext}\"\ncustom = false\n\n[queries]\nstructural = \"queries.scm\"\n"
    );
    assert_eq!(plan.config_text, language_toml(&known_languages()[6]));
}

#[test]
fn custom_queries_are_kept() {
    assert_eq!(query_action(false, Some(true)), QueryAction::Create);
    assert_eq!(query_action(true, None), QueryAction::Overwrite);
    assert_eq!(query_action(true, Some(false)), QueryAction::Overwrite);
    assert_eq!(query_action(true, Some(true)), QueryAction::Keep);
}

#[test]
fn parsers_are_downloaded_only_when_allowed() {
    assert_eq!(parser_action(true, false), ParserAction::Ready);
    assert_eq!(parser_action(false, true), ParserAction::Download);
    assert_eq!(parser_action(false, false), ParserAction::Refuse);
}

#[test]
fn a_new_pack_is_synchronised() {
    let plan = rust_plan(true);
    let step = |state, event| sync_language(&plan, state, event, "linux", "x86_64");
    let state = step(SyncState::MakeDirectory, SyncEvent::Finished(Ok(())));
    assert!(matches!(state, SyncState::CheckConfig));
    let state = step(state, SyncEvent::Found(false));
    assert!(matches!(state, SyncState::WriteConfig));
    let state = step(state, SyncEvent::Finished(Ok(())));
    assert!(matches!(state, SyncState::ReadConfig));
    let state = step(state, SyncEvent::Config(Ok(language_config("rust", &["rs"], Some(false)))));
    assert!(matches!(state, SyncState::CheckQuery(_)));
    let state = step(state, SyncEvent::Found(true));
    assert!(matches!(state, SyncState::WriteQuery(_, true)));
    let state = step(state, SyncEvent::Finished(Ok(())));
    assert!(matches!(&state, SyncState::CheckParser(path) if path == "/packs/rust/tree-sitter-rust-linux-x86_64.so"));
    let state = step(state, SyncEvent::Found(false));
    assert!(matches!(state, SyncState::Download(_)));
    let state = step(state, SyncEvent::Finished(Ok(())));
    assert!(matches!(state, SyncState::Done(Ok(()))));
}

#[test]
fn failures_of_a_pack_are_told() {
    let plan = rust_plan(false);
    let step = |state, event| match sync_language(&plan, state, event, "linux", "x86_64") {
        SyncState::Done(Err(message)) => message,
        other => format!("{:?}", other),
    };
    let config = || language_config("rust", &["rs"], None);
    let no = || SyncEvent::Finished(Err("no".to_string()));
    assert_eq!(step(SyncState::MakeDirectory, no()), "failed to create /packs/rust: no");
    assert_eq!(step(SyncState::WriteConfig, no()), "failed to write /packs/rust/language.toml: no");
    assert_eq!(
        step(SyncState::ReadConfig, SyncEvent::Config(Err(ConfigFault::Unreadable("no".to_string())))),
        "failed to read /packs/rust/language.toml: no"
    );
    assert_eq!(
        step(SyncState::ReadConfig, SyncEvent::Config(Err(ConfigFault::Unparsable("no".to_string())))),
        "failed to parse /packs/rust/language.toml: no"
    );
    assert_eq!(step(SyncState::WriteQuery(config(), false), no()), "failed to write /packs/rust/queries.scm: no");
    assert_eq!(step(SyncState::WriteQuery(config(), true), no()), "failed to overwrite /packs/rust/queries.scm: no");
    assert_eq!(step(SyncState::CheckParser("/p".to_string()), SyncEvent::Found(false)), "parser download disabled");
    assert_eq!(step(SyncState::Download("/p".to_string()), no()), "no");
    let kept = language_config("rust", &["rs"], Some(true));
    let state = sync_language(&plan, SyncState::CheckQuery(kept), SyncEvent::Found(true), "linux", "x86_64");
    assert!(matches!(state, SyncState::CheckParser(_)));
}

#[test]
fn the_asset_of_a_release_is_found() {
    assert_eq!(latest_url("a/b"), "https://api.github.com/repos/a/b/releases/latest");
    let release = json(
        "{\"assets\": [{\"name\": \"x\"}, {\"browser_download_url\": \"u\"}, {\"name\": \"y\", \"browser_download_url\": \"v\"}]}",
    );
    assert_eq!(find_asset(&release, "y", "a/b"), Ok("v".to_string()));
    assert_eq!(find_asset(&release, "x", "a/b").unwrap_err(), "asset download url missing for a/b");
    assert_eq!(find_asset(&release, "z", "a/b").unwrap_err(), "release asset not found: z");
    assert_eq!(find_asset(&json("{}"), "z", "a/b").unwrap_err(), "release assets missing for a/b");
}

#[test]
fn downloads_go_through_a_file_of_their_own() {
    let first = temp_path("/p/parser.so");
    let second = temp_path("/p/parser.so");
    assert!(first.starts_with("/p/parser.tmp-"));
    assert_eq!(first.len(), "/p/parser.tmp-".len() + 36);
    assert_ne!(first, second);
}

#[test]
fn a_missing_parser_is_explained() {
    let (first, second) = manual_download_notes(&known_languages()[6], "asset.so", "/p/rust/parser.so");
    assert_eq!(
        first,
        "missing parser for rust. Download 'asset.so' from https://github.com/neatify-tech/tree-sitter-rust/releases/latest and place it at /p/rust/parser.so"
    );
    assert_eq!(
        second,
        "ensure /p/rust/language.toml and /p/rust/queries.scm exist (custom=true prevents overwrite)"
    );
    let (_, second) = manual_download_notes(&known_languages()[6], "asset.so", "/");
    assert_eq!(
        second,
        "ensure <language pack>/language.toml and <language pack>/queries.scm exist (custom=true prevents overwrite)"
    );
}

#[test]
fn packs_are_located() {
    let pack = locate_pack(language_config("rust", &["rs"], None), "/p/rust", "linux", "x86_64");
    assert_eq!(pack.parser_path, "/p/rust/tree-sitter-rust-linux-x86_64.so");
    assert_eq!(pack.structural_query_path, "/p/rust/queries.scm");
    assert_eq!(missing_part(&pack, true, true), None);
    assert_eq!(
        missing_part(&pack, false, false),
        Some("missing structural query: /p/rust/queries.scm".to_string())
    );
    assert_eq!(
        missing_part(&pack, true, false),
        Some("missing parser binary: /p/rust/tree-sitter-rust-linux-x86_64.so".to_string())
    );
}

#[test]
fn symbols_have_no_hyphens() {
    assert_eq!(symbol_name("c-sharp"), "tree_sitter_c_sharp");
    assert_eq!(symbol_name("rust"), "tree_sitter_rust");
}

#[test]
fn languages_are_loaded_with_their_query() {
    let loaded = json_language("json", &["json"]);
    assert_eq!(loaded.name, "json");
    assert_eq!(loaded.extensions, vec!["json"]);
    let grammar = tree_sitter::Language::from(tree_sitter_json::LANGUAGE);
    let message = match load_language(&language_config("json", &[], None), grammar.clone(), "(nope) @structural") {
        Ok(_) => panic!("accepted"),
        Err(message) => message,
    };
    let expected = match tree_sitter::Query::new(&grammar, "(nope) @structural") {
        Ok(_) => panic!("accepted"),
        Err(fault) => fault.to_string(),
    };
    assert_eq!(message, format!("invalid structural query for json: {}", expected));
}

#[test]
fn languages_are_found_by_extension() {
    let registry = build_registry(vec![json_language("first", &["JSON", "geo"]), json_language("second", &["json"])]);
    let name = |path: &str| detect_language(&registry, path).map(|l| l.name.clone());
    assert_eq!(name("/a/b.json"), Some("second".to_string()));
    assert_eq!(name("/a/b.GEO"), Some("first".to_string()));
    assert_eq!(name("/a/b.rs"), None);
    assert_eq!(name("/a/json"), None);
    assert_eq!(name("/a/.json"), None);
}

#[test]
fn languages_are_found_by_name() {
    let registry = build_registry(vec![json_language("first", &[]), json_language("Second", &[])]);
    let name = |name: &str| detect_language_by_name(&registry, name).map(|l| l.name.clone());
    assert_eq!(name("FIRST"), Some("first".to_string()));
    assert_eq!(name("second"), Some("Second".to_string()));
    assert_eq!(name("third"), None);
}

#[test]
fn sources_are_parsed_and_cut() {
    let language = json_language("json", &["json"]);
    let source = "{\"a\": 1, \"b\": [2]}";
    let mut parser = tree_sitter::Parser::new();
    let tree = parse_source(&mut parser, &language, source).unwrap();
    assert_eq!(tree.root_node().kind(), "document");
    assert_eq!(tree.root_node().end_byte(), source.len());
    let chunks = chunk_source_with_limits(&language, "/x.json", source, 300, 50).unwrap();
    let told: Vec<(String, Option<String>)> =
        chunks.iter().map(|c| (strip_chunk_header(&c.text), c.metadata.parent_context.clone())).collect();
    assert_eq!(
        told,
        vec![
            ("\"a\": 1".to_string(), Some("a".to_string())),
            ("{\"a\": 1, \"b\": [2]".to_string(), None),
        ]
    );
    assert!(try_chunk_source(&language, "/x.json", source, 300, 0).unwrap().is_some());
}

#[test]
fn log_files_are_named_by_day() {
    let state = configure(&None, "/cwd", false, "2024-05-06");
    assert_eq!(log_file_path(&state), "/cwd/mcp-search-2024-05-06.log");
    let state = configure(&Some("logs/own.log".to_string()), "/cwd", false, "2024-05-06");
    assert_eq!(log_file_path(&state), "/cwd/logs/own-2024-05-06.log");
    assert_eq!(resolve_log_path("logs", "/cwd"), "/cwd/logs");
    assert_eq!(resolve_log_path("/logs", "/cwd"), "/logs");
    let target = |path: &str, is_dir| resolve_log_target(&Some(path.to_string()), "/cwd", is_dir);
    assert_eq!(target("x.log", true), ("/cwd/x.log".to_string(), "mcp-search".to_string()));
    assert_eq!(target("x.txt", false), ("/cwd/x.txt".to_string(), "mcp-search".to_string()));
    assert_eq!(target("/a/.log", false), ("/a/.log".to_string(), "mcp-search".to_string()));
}

#[test]
fn log_lines_show_time_and_level() {
    let mut state = configure(&None, "/cwd", false, "2024-05-06");
    let entry = info(&mut state, "hello", "2024-05-06", "2024-05-06 07:08:09");
    assert_eq!(entry.line, "2024-05-06 07:08:09 [INFO] hello\n");
    assert_eq!(entry.reopen, None);
    let entry = warn(&mut state, "careful", "2024-05-07", "t");
    assert_eq!(entry.line, "t [WARN] careful\n");
    assert_eq!(entry.reopen, Some("/cwd/mcp-search-2024-05-07.log".to_string()));
    let entry = error(&mut state, "bad", "2024-05-07", "t");
    assert_eq!(entry.line, "t [ERROR] bad\n");
    assert_eq!(entry.reopen, None);
}

#[test]
fn lines_go_where_the_log_was_last_configured() {
    let mut state = configure(&Some("first.log".to_string()), "/cwd", false, "2024-05-06");
    info(&mut state, "a", "2024-05-07", "t");
    assert_eq!(log_file_path(&state), "/cwd/first-2024-05-07.log");
    state = configure(&Some("/logs/second.log".to_string()), "/cwd", false, "2024-05-07");
    assert_eq!(warn(&mut state, "b", "2024-05-07", "t").reopen, None);
    assert_eq!(log_file_path(&state), "/logs/second-2024-05-07.log");
    let entry = error(&mut state, "c", "2024-05-08", "t");
    assert_eq!(entry.reopen, Some("/logs/second-2024-05-08.log".to_string()));
}

#[test]
fn a_log_that_cannot_be_opened_is_not_taken_over() {
    let first = configure(&Some("first.log".to_string()), "/cwd", false, "2024-05-06");
    let next = configure(&Some("/none/next.log".to_string()), "/cwd", false, "2024-05-06");
    let kept = adopt(Some(first), next.clone(), &Err("no such place".to_string())).unwrap();
    assert_eq!(log_file_path(&kept), "/cwd/first-2024-05-06.log");
    let taken = adopt(Some(kept), next.clone(), &Ok(())).unwrap();
    assert_eq!(log_file_path(&taken), "/none/next-2024-05-06.log");
    assert!(adopt(None, next, &Err("no such place".to_string())).is_none());
}
