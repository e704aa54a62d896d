//! What the schema says of the settings, and what the settings are.
use crate::config::{
    all_changed, changed, embedder_of, initial_config, overridden, ConfigView, DecodedView,
    OllamaView, SurroundingsView,
};
use crate::json::{entry, field, pair, unsigned, EntryView, JsonView};
use crate::schema::{
    config_rules, embedder_rules, fastembed_rules, ollama_rules, openai_rules, root_rules,
    setting_rules, store_rules,
};
use crate::text::{blank, white};
use vstd::prelude::*;

verus! {

/// The value that the rules for some settings give as the default of one.
pub open spec fn default_of(rules: JsonView, key: Seq<char>) -> Option<JsonView> {
    match field(rules, key) {
        Some(own) => field(own, "default"@),
        None => None,
    }
}

/// The rules for the parts of a setting.
pub open spec fn parts_of(rules: JsonView) -> JsonView {
    match field(rules, "properties"@) {
        Some(parts) => parts,
        None => JsonView::Null,
    }
}

/// The names that the schema has settings of.
pub open spec fn named_in_schema(key: Seq<char>) -> bool {
    field(parts_of(config_rules()), key) is Some
}

/// Whether a setting can be made, with nothing else set.
pub open spec fn can_be_set(
    config: ConfigView,
    key: Seq<char>,
    value: JsonView,
    decoded: DecodedView,
    world: SurroundingsView,
) -> bool {
    overridden(config, JsonView::object().with(key, value), decoded, world) is Ok
}

/// The value of a key among entries with one more behind them.
proof fn lemma_entry_push(entries: Seq<EntryView>, more: EntryView, key: Seq<char>)
    ensures
        entry(entries.push(more), key) == match entry(entries, key) {
            Some(value) => Some(value),
            None => if more.key == key {
                Some(more.value)
            } else {
                None
            },
        },
    decreases entries.len(),
{
    let all = entries.push(more);
    if entries.len() == 0 {
        assert(entry(all.drop_first(), key) is None);
    } else {
        assert(all[0] == entries[0]);
        assert(all.drop_first() =~= entries.drop_first().push(more));
        lemma_entry_push(entries.drop_first(), more, key);
    }
}

/// The value of a key in an object with one entry more.
pub broadcast proof fn lemma_field_with(value: JsonView, own: Seq<char>, more: JsonView, key: Seq<char>)
    requires
        value is Object,
    ensures
        #[trigger] field(value.with(own, more), key) == match field(value, key) {
            Some(there) => Some(there),
            None => if own == key {
                Some(more)
            } else {
                None
            },
        },
{
    lemma_entry_push(value->Object_0, pair(own, more), key);
}

/// How long the words of the schema are; some differ though they are as long.
proof fn lemma_words_apart()
    ensures
        "type"@.len() == 4,
        "default"@.len() == 7,
        "minimum"@.len() == 7,
        "title"@.len() == 5,
        "$schema"@.len() == 7,
        "properties"@.len() == 10,
        "additionalProperties"@.len() == 20,
        "required"@.len() == 8,
        "provider"@.len() == 8,
        "concurrency"@.len() == 11,
        "minimum"@ != "default"@,
        "$schema"@ != "default"@,
{
    reveal_strlit("type");
    reveal_strlit("default");
    reveal_strlit("minimum");
    reveal_strlit("title");
    reveal_strlit("$schema");
    reveal_strlit("properties");
    reveal_strlit("additionalProperties");
    reveal_strlit("required");
    reveal_strlit("provider");
    reveal_strlit("concurrency");
    assert("minimum"@[0] != "default"@[0]);
    assert("$schema"@[0] != "default"@[0]);
}

/// How long the names of the settings are; some differ though they are as long.
proof fn lemma_settings_apart()
    ensures
        "roots"@.len() == 5,
        "chunk_max_chars"@.len() == 15,
        "chunk_max_tokens"@.len() == 16,
        "chunk_overlap_tokens"@.len() == 20,
        "watch_debounce_ms"@.len() == 17,
        "data_root"@.len() == 9,
        "language_pack_root"@.len() == 18,
        "context"@.len() == 7,
        "languages"@.len() == 9,
        "language_download"@.len() == 17,
        "log_path"@.len() == 8,
        "lancedb"@.len() == 7,
        "embedder"@.len() == 8,
        "data_root"@ != "languages"@,
        "watch_debounce_ms"@ != "language_download"@,
        "context"@ != "lancedb"@,
        "log_path"@ != "embedder"@,
{
    reveal_strlit("roots");
    reveal_strlit("chunk_max_chars");
    reveal_strlit("chunk_max_tokens");
    reveal_strlit("chunk_overlap_tokens");
    reveal_strlit("watch_debounce_ms");
    reveal_strlit("data_root");
    reveal_strlit("language_pack_root");
    reveal_strlit("context");
    reveal_strlit("languages");
    reveal_strlit("language_download");
    reveal_strlit("log_path");
    reveal_strlit("lancedb");
    reveal_strlit("embedder");
    assert("data_root"@[0] != "languages"@[0]);
    assert("watch_debounce_ms"@[0] != "language_download"@[0]);
    assert("context"@[0] != "lancedb"@[0]);
    assert("log_path"@[0] != "embedder"@[0]);
}

/// The defaults that the schema gives are those of the configuration before a
/// client changes it, and no setting has to be made.
pub proof fn law_schema_defaults(world: SurroundingsView)
    ensures
        ({
            let config = initial_config(world);
            let settings = parts_of(config_rules());
            let store = field(settings, "lancedb"@);
            let embedder = field(settings, "embedder"@);
            &&& field(config_rules(), "required"@) == Some(JsonView::list())
            &&& default_of(settings, "chunk_max_tokens"@) == Some(unsigned(config.chunk_max_tokens))
            &&& default_of(settings, "chunk_overlap_tokens"@) == Some(
                unsigned(config.chunk_overlap_tokens),
            )
            &&& default_of(settings, "watch_debounce_ms"@) == Some(
                unsigned(config.watch_debounce_ms),
            )
            &&& default_of(settings, "language_pack_root"@) == Some(
                JsonView::Text(config.language_pack_root),
            )
            &&& default_of(settings, "context"@) == Some(JsonView::Text(config.context))
            &&& default_of(settings, "language_download"@) == Some(
                JsonView::Bool(config.language_download),
            )
            &&& store is Some && default_of(parts_of(store->0), "path"@) == Some(
                JsonView::Text(config.lancedb_path),
            )
            &&& embedder is Some && default_of(parts_of(embedder->0), "concurrency"@) == Some(
                unsigned(config.embedder.concurrency),
            )
        }),
{
    broadcast use lemma_field_with;

    lemma_words_apart();
    lemma_settings_apart();
    let rules = setting_rules();
    assert(field(config_rules(), "properties"@) == Some(rules));
    assert(field(config_rules(), "required"@) == Some(JsonView::list()));
    assert(field(rules, "lancedb"@) == Some(store_rules()));
    assert(field(rules, "embedder"@) == Some(embedder_rules()));
}

/// The keys of the settings are the names in the schema.
proof fn lemma_names(key: Seq<char>)
    ensures
        named_in_schema(key) <==> {
            ||| key == "roots"@
            ||| key == "chunk_max_chars"@
            ||| key == "chunk_max_tokens"@
            ||| key == "chunk_overlap_tokens"@
            ||| key == "watch_debounce_ms"@
            ||| key == "data_root"@
            ||| key == "language_pack_root"@
            ||| key == "context"@
            ||| key == "languages"@
            ||| key == "language_download"@
            ||| key == "log_path"@
            ||| key == "lancedb"@
            ||| key == "embedder"@
        },
{
    broadcast use lemma_field_with;

    lemma_words_apart();
    assert(field(config_rules(), "properties"@) == Some(setting_rules()));
}

/// A value for the choice of an embedder, and what can be read from it, that
/// are accepted.
proof fn lemma_embedder_accepted(decoded: DecodedView)
    requires
        decoded.ollama == Ok::<OllamaView, Seq<char>>(
            OllamaView { base_url: "u"@, model: "m"@, batch: false },
        ),
    ensures
        embedder_of(
            JsonView::object().with("provider"@, JsonView::Text("ollama"@)).with(
                "ollama"@,
                JsonView::object(),
            ),
            decoded,
        ) is Ok,
{
    broadcast use lemma_field_with;

    let value = JsonView::object().with("provider"@, JsonView::Text("ollama"@)).with(
        "ollama"@,
        JsonView::object(),
    );
    lemma_words_apart();
    reveal_strlit("ollama");
    reveal_strlit("openai");
    reveal_strlit("fastembed");
    reveal_strlit("u");
    reveal_strlit("m");
    assert("ollama"@.len() == 6);
    assert("fastembed"@.len() == 9);
    assert("ollama"@[1] != "openai"@[1]);
    assert(!blank("u"@)) by {
        assert(!white("u"@[0]));
    }
    assert(!blank("m"@)) by {
        assert(!white("m"@[0]));
    }
    assert(field(value, "provider"@) == Some(JsonView::Text("ollama"@)));
    assert(field(value, "concurrency"@) is None);
    assert(field(value, "fastembed"@) is None);
    assert(field(value, "openai"@) is None);
}

/// Each name in the schema is one that a client can set.
pub proof fn law_schema_names_can_be_set(
    config: ConfigView,
    key: Seq<char>,
    world: SurroundingsView,
)
    requires
        named_in_schema(key),
    ensures
        exists|value: JsonView, decoded: DecodedView|
            can_be_set(config, key, value, decoded, world),
{
    lemma_names(key);
    lemma_settings_apart();
    reveal_strlit("m");
    assert(!blank("m"@)) by {
        assert(!white("m"@[0]));
    }
    let decoded = DecodedView {
        roots: Ok(Seq::empty()),
        fastembed: Err("m"@),
        ollama: Ok(OllamaView { base_url: "u"@, model: "m"@, batch: false }),
        openai: Err("m"@),
    };
    let value = if key == "language_download"@ {
        JsonView::Bool(true)
    } else if key == "lancedb"@ {
        JsonView::object()
    } else if key == "embedder"@ {
        JsonView::object().with("provider"@, JsonView::Text("ollama"@)).with(
            "ollama"@,
            JsonView::object(),
        )
    } else if key == "chunk_max_chars"@ || key == "chunk_max_tokens"@ || key
        == "chunk_overlap_tokens"@ || key == "watch_debounce_ms"@ {
        unsigned(1)
    } else {
        JsonView::Text("m"@)
    };
    lemma_embedder_accepted(decoded);
    lemma_one_setting(config, key, value, decoded, world);
    assert(changed(config, key, value, JsonView::object().with(key, value), decoded, world) is Ok);
    assert(can_be_set(config, key, value, decoded, world));
}

/// One setting alone is that setting made.
proof fn lemma_one_setting(
    config: ConfigView,
    key: Seq<char>,
    value: JsonView,
    decoded: DecodedView,
    world: SurroundingsView,
)
    ensures
        overridden(config, JsonView::object().with(key, value), decoded, world) == changed(
            config,
            key,
            value,
            JsonView::object().with(key, value),
            decoded,
            world,
        ),
{
    let all = JsonView::object().with(key, value);
    let settings = all->Object_0;
    assert(settings.len() == 1 && settings[0] == pair(key, value));
    assert(settings.drop_first() =~= Seq::empty());
    reveal_with_fuel(all_changed, 2);
}

/// Settings with a name that the schema does not have are refused.
pub proof fn law_other_names_are_refused(
    config: ConfigView,
    settings: Seq<EntryView>,
    at: int,
    decoded: DecodedView,
    world: SurroundingsView,
)
    requires
        0 <= at < settings.len(),
        !named_in_schema(settings[at].key),
    ensures
        overridden(config, JsonView::Object(settings), decoded, world) is Err,
{
    lemma_refused(config, settings, at, JsonView::Object(settings), decoded, world);
}

/// Where one of the settings has a name that the schema does not have, they
/// cannot all be made.
proof fn lemma_refused(
    config: ConfigView,
    settings: Seq<EntryView>,
    at: int,
    all: JsonView,
    decoded: DecodedView,
    world: SurroundingsView,
)
    requires
        0 <= at < settings.len(),
        !named_in_schema(settings[at].key),
    ensures
        all_changed(config, settings, all, decoded, world) is Err,
    decreases settings.len(),
{
    let first = settings[0];
    if at == 0 {
        lemma_names(first.key);
    } else {
        match changed(config, first.key, first.value, all, decoded, world) {
            Err(_) => {},
            Ok(next) => {
                assert(settings.drop_first()[at - 1] == settings[at]);
                lemma_refused(
                    next,
                    settings.drop_first(),
                    at - 1,
                    all,
                    decoded,
                    world,
                );
            },
        }
    }
}

/// What the schema says of a root, of the embedder and of its parts names what can be
/// read of them, and nothing else. A root needs a path and an embedder a provider.
pub proof fn law_schema_names_parts(key: Seq<char>)
    ensures
        field(parts_of(root_rules()), key) is Some <==> key == "path"@ || key == "default"@ || key
            == "deny"@ || key == "allow"@ || key == "blocked"@,
        field(parts_of(fastembed_rules()), key) is Some <==> key == "model"@ || key
            == "model_path"@,
        field(parts_of(ollama_rules()), key) is Some <==> key == "base_url"@ || key == "model"@
            || key == "batch"@,
        field(parts_of(openai_rules()), key) is Some <==> key == "api_key_env"@ || key == "model"@,
        field(parts_of(embedder_rules()), key) is Some <==> key == "provider"@ || key
            == "concurrency"@ || key == "fastembed"@ || key == "ollama"@ || key == "openai"@,
        field(parts_of(store_rules()), key) is Some <==> key == "path"@,
        field(root_rules(), "required"@) == Some(JsonView::list().item(JsonView::Text("path"@))),
        field(embedder_rules(), "required"@) == Some(
            JsonView::list().item(JsonView::Text("provider"@)),
        ),
{
    broadcast use lemma_field_with;

    lemma_words_apart();
    assert(field(JsonView::object(), key) is None);
}

} // verus!
