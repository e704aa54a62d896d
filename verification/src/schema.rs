//! What a client may set, as a JSON schema.
use crate::json::{number_value, text_value, unsigned, Json, JsonView};
use vstd::prelude::*;

verus! {

/// A value of one type.
pub open spec fn typed(kind: Seq<char>) -> JsonView {
    JsonView::object().with("type"@, JsonView::Text(kind))
}

/// A value of one type.
pub fn typed_value(kind: &str) -> (value: Json)
    ensures
        value@ == typed(kind@),
{
    Json::object().with("type", text_value(kind))
}

/// A value of one type, with what it is for.
pub open spec fn described(kind: Seq<char>, description: Seq<char>) -> JsonView {
    typed(kind).with("description"@, JsonView::Text(description))
}

/// A value of one type, with what it is for.
pub fn described_value(kind: &str, description: &str) -> (value: Json)
    ensures
        value@ == described(kind@, description@),
{
    typed_value(kind).with("description", text_value(description))
}

/// What may be said of a root.
pub open spec fn root_rules() -> JsonView {
    JsonView::object()
        .with("type"@, JsonView::Text("object"@))
        .with("additionalProperties"@, JsonView::Bool(false))
        .with(
            "properties"@,
            JsonView::object()
                .with("path"@, described("string"@, "Absolute or root-relative path."@))
                .with(
                    "default"@,
                    described("boolean"@, "Exactly one root should be default."@),
                )
                .with(
                    "deny"@,
                    JsonView::object()
                        .with("type"@, JsonView::Text("array"@))
                        .with("items"@, typed("string"@))
                        .with(
                            "description"@,
                            JsonView::Text("Glob patterns to exclude from all operations."@),
                        ),
                )
                .with(
                    "allow"@,
                    JsonView::object()
                        .with("type"@, JsonView::Text("array"@))
                        .with("items"@, typed("string"@))
                        .with(
                            "description"@,
                            JsonView::Text("Glob patterns to include; anything not matching is denied."@),
                        ),
                )
                .with(
                    "blocked"@,
                    JsonView::object()
                        .with("type"@, JsonView::Text("boolean"@))
                        .with(
                            "description"@,
                            JsonView::Text("Block this root when used in _meta.policy."@),
                        )
                        .with("scope"@, JsonView::Text("policy"@)),
                ),
        )
        .with("required"@, JsonView::list().item(JsonView::Text("path"@)))
}

/// What may be said of a root.
fn root_schema() -> (value: Json)
    ensures
        value@ == root_rules(),
{
    Json::object()
        .with("type", text_value("object"))
        .with("additionalProperties", Json::Bool(false))
        .with(
            "properties",
            Json::object()
                .with("path", described_value("string", "Absolute or root-relative path."))
                .with(
                    "default",
                    described_value("boolean", "Exactly one root should be default."),
                )
                .with(
                    "deny",
                    Json::object()
                        .with("type", text_value("array"))
                        .with("items", typed_value("string"))
                        .with(
                            "description",
                            text_value("Glob patterns to exclude from all operations."),
                        ),
                )
                .with(
                    "allow",
                    Json::object()
                        .with("type", text_value("array"))
                        .with("items", typed_value("string"))
                        .with(
                            "description",
                            text_value("Glob patterns to include; anything not matching is denied."),
                        ),
                )
                .with(
                    "blocked",
                    Json::object()
                        .with("type", text_value("boolean"))
                        .with(
                            "description",
                            text_value("Block this root when used in _meta.policy."),
                        )
                        .with("scope", text_value("policy")),
                ),
        )
        .with("required", Json::list().item(text_value("path")))
}

/// What may be said of the roots.
pub open spec fn roots_rules() -> JsonView {
    JsonView::object()
        .with("type"@, JsonView::Text("array"@))
        .with("minItems"@, unsigned(0))
        .with(
            "description"@,
            JsonView::Text("Allowed roots. The default root is used for relative paths."@),
        )
        .with("items"@, root_rules())
}

/// What may be said of the roots.
fn roots_schema() -> (value: Json)
    ensures
        value@ == roots_rules(),
{
    Json::object()
        .with("type", text_value("array"))
        .with("minItems", number_value(0))
        .with(
            "description",
            text_value("Allowed roots. The default root is used for relative paths."),
        )
        .with("items", root_schema())
}

/// What may be said of the store.
pub open spec fn store_rules() -> JsonView {
    JsonView::object()
        .with("type"@, JsonView::Text("object"@))
        .with("additionalProperties"@, JsonView::Bool(false))
        .with(
            "properties"@,
            JsonView::object()
                .with(
                    "path"@,
                    JsonView::object()
                        .with("type"@, JsonView::Text("string"@))
                        .with("default"@, JsonView::Text(".mcp-search/lancedb"@))
                        .with("description"@, JsonView::Text("Directory for LanceDB data."@)),
                ),
        )
}

/// What may be said of the store.
fn store_schema() -> (value: Json)
    ensures
        value@ == store_rules(),
{
    Json::object()
        .with("type", text_value("object"))
        .with("additionalProperties", Json::Bool(false))
        .with(
            "properties",
            Json::object()
                .with(
                    "path",
                    Json::object()
                        .with("type", text_value("string"))
                        .with("default", text_value(".mcp-search/lancedb"))
                        .with("description", text_value("Directory for LanceDB data.")),
                ),
        )
}

/// What may be said of the local embedder.
pub open spec fn fastembed_rules() -> JsonView {
    JsonView::object()
        .with("type"@, JsonView::Text("object"@))
        .with("additionalProperties"@, JsonView::Bool(false))
        .with(
            "properties"@,
            JsonView::object()
                .with(
                    "model"@,
                    JsonView::object()
                        .with("type"@, JsonView::Text("string"@))
                        .with("default"@, JsonView::Text("bge-small-en-v1.5"@)),
                )
                .with("model_path"@, typed("string"@)),
        )
        .with("description"@, JsonView::Text("Local fastembed model configuration."@))
}

/// What may be said of the local embedder.
fn fastembed_schema() -> (value: Json)
    ensures
        value@ == fastembed_rules(),
{
    Json::object()
        .with("type", text_value("object"))
        .with("additionalProperties", Json::Bool(false))
        .with(
            "properties",
            Json::object()
                .with(
                    "model",
                    Json::object()
                        .with("type", text_value("string"))
                        .with("default", text_value("bge-small-en-v1.5")),
                )
                .with("model_path", typed_value("string")),
        )
        .with("description", text_value("Local fastembed model configuration."))
}

/// What may be said of an Ollama server.
pub open spec fn ollama_rules() -> JsonView {
    JsonView::object()
        .with("type"@, JsonView::Text("object"@))
        .with("additionalProperties"@, JsonView::Bool(false))
        .with(
            "properties"@,
            JsonView::object()
                .with("base_url"@, typed("string"@))
                .with("model"@, typed("string"@))
                .with(
                    "batch"@,
                    JsonView::object()
                        .with("type"@, JsonView::Text("boolean"@))
                        .with("default"@, JsonView::Bool(false)),
                ),
        )
        .with("description"@, JsonView::Text("Ollama embedding configuration."@))
}

/// What may be said of an Ollama server.
fn ollama_schema() -> (value: Json)
    ensures
        value@ == ollama_rules(),
{
    Json::object()
        .with("type", text_value("object"))
        .with("additionalProperties", Json::Bool(false))
        .with(
            "properties",
            Json::object()
                .with("base_url", typed_value("string"))
                .with("model", typed_value("string"))
                .with(
                    "batch",
                    Json::object()
                        .with("type", text_value("boolean"))
                        .with("default", Json::Bool(false)),
                ),
        )
        .with("description", text_value("Ollama embedding configuration."))
}

/// What may be said of the service of OpenAI.
pub open spec fn openai_rules() -> JsonView {
    JsonView::object()
        .with("type"@, JsonView::Text("object"@))
        .with("additionalProperties"@, JsonView::Bool(false))
        .with(
            "properties"@,
            JsonView::object()
                .with("api_key_env"@, typed("string"@))
                .with("model"@, typed("string"@)),
        )
        .with("description"@, JsonView::Text("OpenAI embedding configuration."@))
}

/// What may be said of the service of OpenAI.
fn openai_schema() -> (value: Json)
    ensures
        value@ == openai_rules(),
{
    Json::object()
        .with("type", text_value("object"))
        .with("additionalProperties", Json::Bool(false))
        .with(
            "properties",
            Json::object()
                .with("api_key_env", typed_value("string"))
                .with("model", typed_value("string")),
        )
        .with("description", text_value("OpenAI embedding configuration."))
}

/// What may be said of the embedder.
pub open spec fn embedder_rules() -> JsonView {
    JsonView::object()
        .with("type"@, JsonView::Text("object"@))
        .with("additionalProperties"@, JsonView::Bool(false))
        .with(
            "properties"@,
            JsonView::object()
                .with(
                    "provider"@,
                    JsonView::object()
                        .with("type"@, JsonView::Text("string"@))
                        .with(
                            "enum"@,
                            JsonView::list().item(JsonView::Text("fastembed"@))
                                .item(
                                    JsonView::Text("ollama"@),
                                )
                                .item(
                                    JsonView::Text("openai"@),
                                ),
                        )
                        .with("description"@, JsonView::Text("Embedding provider."@)),
                )
                .with(
                    "concurrency"@,
                    JsonView::object()
                        .with("type"@, JsonView::Text("integer"@))
                        .with("minimum"@, unsigned(1))
                        .with("default"@, unsigned(1))
                        .with(
                            "description"@,
                            JsonView::Text("Max concurrent embedding jobs."@),
                        ),
                )
                .with("fastembed"@, fastembed_rules())
                .with("ollama"@, ollama_rules())
                .with("openai"@, openai_rules()),
        )
        .with("required"@, JsonView::list().item(JsonView::Text("provider"@)))
}

/// What may be said of the embedder.
fn embedder_schema() -> (value: Json)
    ensures
        value@ == embedder_rules(),
{
    Json::object()
        .with("type", text_value("object"))
        .with("additionalProperties", Json::Bool(false))
        .with(
            "properties",
            Json::object()
                .with(
                    "provider",
                    Json::object()
                        .with("type", text_value("string"))
                        .with(
                            "enum",
                            Json::list().item(text_value("fastembed"))
                                .item(
                                    text_value("ollama"),
                                )
                                .item(
                                    text_value("openai"),
                                ),
                        )
                        .with("description", text_value("Embedding provider.")),
                )
                .with(
                    "concurrency",
                    Json::object()
                        .with("type", text_value("integer"))
                        .with("minimum", number_value(1))
                        .with("default", number_value(1))
                        .with("description", text_value("Max concurrent embedding jobs.")),
                )
                .with("fastembed", fastembed_schema())
                .with("ollama", ollama_schema())
                .with("openai", openai_schema()),
        )
        .with("required", Json::list().item(text_value("provider")))
}

/// What may be said of each setting.
pub open spec fn setting_rules() -> JsonView {
    JsonView::object()
        .with("roots"@, roots_rules())
        .with(
            "chunk_max_chars"@,
            JsonView::object()
                .with("type"@, JsonView::Text("integer"@))
                .with("minimum"@, unsigned(1))
                .with(
                    "description"@,
                    JsonView::Text(
                        "Max characters per chunk, at 4 to a token; chunk_max_tokens goes before it."@,
                    ),
                ),
        )
        .with(
            "chunk_max_tokens"@,
            JsonView::object()
                .with("type"@, JsonView::Text("integer"@))
                .with("minimum"@, unsigned(1))
                .with("default"@, unsigned(300))
                .with("description"@, JsonView::Text("Max tokens per chunk."@)),
        )
        .with(
            "chunk_overlap_tokens"@,
            JsonView::object()
                .with("type"@, JsonView::Text("integer"@))
                .with("minimum"@, unsigned(0))
                .with("default"@, unsigned(50))
                .with(
                    "description"@,
                    JsonView::Text("Overlapping tokens between adjacent chunks."@),
                ),
        )
        .with(
            "watch_debounce_ms"@,
            JsonView::object()
                .with("type"@, JsonView::Text("integer"@))
                .with("minimum"@, unsigned(0))
                .with("default"@, unsigned(200))
                .with(
                    "description"@,
                    JsonView::Text("Debounce milliseconds for file watching."@),
                ),
        )
        .with(
            "data_root"@,
            JsonView::object()
                .with("type"@, JsonView::Text("string"@))
                .with("default"@, JsonView::Text(".mcp-search"@))
                .with(
                    "description"@,
                    JsonView::Text("Base directory for language packs and LanceDB data."@),
                ),
        )
        .with(
            "language_pack_root"@,
            JsonView::object()
                .with("type"@, JsonView::Text("string"@))
                .with("default"@, JsonView::Text(".mcp-search/languages"@))
                .with("description"@, JsonView::Text("Root directory for language packs."@)),
        )
        .with(
            "context"@,
            JsonView::object()
                .with("type"@, JsonView::Text("string"@))
                .with("default"@, JsonView::Text("default"@))
                .with(
                    "description"@,
                    JsonView::Text("Logical instance context for data isolation."@),
                ),
        )
        .with(
            "languages"@,
            JsonView::object()
                .with("type"@, JsonView::Text("array"@))
                .with("items"@, typed("string"@))
                .with(
                    "description"@,
                    JsonView::Text("Language names to enable; omit to enable all known languages."@),
                ),
        )
        .with(
            "language_download"@,
            JsonView::object()
                .with("type"@, JsonView::Text("boolean"@))
                .with("default"@, JsonView::Bool(true))
                .with(
                    "description"@,
                    JsonView::Text("Allow downloading missing Tree-sitter parser binaries."@),
                ),
        )
        .with(
            "log_path"@,
            described(
                "string"@,
                "Optional log directory or base .log path; defaults to CWD."@,
            ),
        )
        .with("lancedb"@, store_rules())
        .with("embedder"@, embedder_rules())
}

/// What may be said of each setting.
fn settings_schema() -> (value: Json)
    ensures
        value@ == setting_rules(),
{
    Json::object()
        .with("roots", roots_schema())
        .with(
            "chunk_max_chars",
            Json::object()
                .with("type", text_value("integer"))
                .with("minimum", number_value(1))
                .with(
                    "description",
                    text_value(
                        "Max characters per chunk, at 4 to a token; chunk_max_tokens goes before it.",
                    ),
                ),
        )
        .with(
            "chunk_max_tokens",
            Json::object()
                .with("type", text_value("integer"))
                .with("minimum", number_value(1))
                .with("default", number_value(300))
                .with("description", text_value("Max tokens per chunk.")),
        )
        .with(
            "chunk_overlap_tokens",
            Json::object()
                .with("type", text_value("integer"))
                .with("minimum", number_value(0))
                .with("default", number_value(50))
                .with("description", text_value("Overlapping tokens between adjacent chunks.")),
        )
        .with(
            "watch_debounce_ms",
            Json::object()
                .with("type", text_value("integer"))
                .with("minimum", number_value(0))
                .with("default", number_value(200))
                .with("description", text_value("Debounce milliseconds for file watching.")),
        )
        .with(
            "data_root",
            Json::object()
                .with("type", text_value("string"))
                .with("default", text_value(".mcp-search"))
                .with(
                    "description",
                    text_value("Base directory for language packs and LanceDB data."),
                ),
        )
        .with(
            "language_pack_root",
            Json::object()
                .with("type", text_value("string"))
                .with("default", text_value(".mcp-search/languages"))
                .with("description", text_value("Root directory for language packs.")),
        )
        .with(
            "context",
            Json::object()
                .with("type", text_value("string"))
                .with("default", text_value("default"))
                .with(
                    "description",
                    text_value("Logical instance context for data isolation."),
                ),
        )
        .with(
            "languages",
            Json::object()
                .with("type", text_value("array"))
                .with("items", typed_value("string"))
                .with(
                    "description",
                    text_value("Language names to enable; omit to enable all known languages."),
                ),
        )
        .with(
            "language_download",
            Json::object()
                .with("type", text_value("boolean"))
                .with("default", Json::Bool(true))
                .with(
                    "description",
                    text_value("Allow downloading missing Tree-sitter parser binaries."),
                ),
        )
        .with(
            "log_path",
            described_value(
                "string",
                "Optional log directory or base .log path; defaults to CWD.",
            ),
        )
        .with("lancedb", store_schema())
        .with("embedder", embedder_schema())
}

/// What a client may set, as a JSON schema.
pub open spec fn config_rules() -> JsonView {
    JsonView::object()
        .with("$schema"@, JsonView::Text("http://json-schema.org/draft-07/schema#"@))
        .with("title"@, JsonView::Text("mcp-search configuration"@))
        .with("type"@, JsonView::Text("object"@))
        .with("additionalProperties"@, JsonView::Bool(false))
        .with("properties"@, setting_rules())
        .with("required"@, JsonView::list())
}

/// What a client may set, as a JSON schema.
pub fn config_schema() -> (value: Json)
    ensures
        value@ == config_rules(),
{
    Json::object()
        .with("$schema", text_value("http://json-schema.org/draft-07/schema#"))
        .with("title", text_value("mcp-search configuration"))
        .with("type", text_value("object"))
        .with("additionalProperties", Json::Bool(false))
        .with("properties", settings_schema())
        .with("required", Json::list())
}

} // verus!
