//! What settings do to a configuration, whatever the configuration and the settings.
use crate::config::{
    all_changed, asked_root, blocks, canonical_path, changed, default_index, embedder_fault,
    embedder_of, final_roots, initial_config, list_of, overridden, sent_settings, tokens_within,
    with_one_default, with_roots, ConfigView, DecodedView, EmbedderView, RootInputView, RootView,
    SurroundingsView,
};
use crate::json::{as_text, as_unsigned, entry, field, EntryView, JsonView};
use crate::paths::{absolute, normalized, root_path, under};
use crate::policy_laws::{keys_differ, lemma_entry};
use crate::server::{background, instance_store};
use crate::text::{blank, white};
use vstd::prelude::*;

verus! {

// ---------------------------------------------------------------------------
// Settings, one by one
// ---------------------------------------------------------------------------

/// The names of settings differ.
proof fn lemma_setting_names()
    ensures
        "roots"@.len() == 5,
        "chunk_max_chars"@.len() == 15,
        "chunk_max_tokens"@.len() == 16,
        "chunk_overlap_tokens"@.len() == 20,
        "watch_debounce_ms"@.len() == 17,
        "data_root"@.len() == 9,
        "language_pack_root"@.len() == 18,
        "languages"@.len() == 9,
        "language_download"@.len() == 17,
        "log_path"@.len() == 8,
        "context"@.len() == 7,
        "lancedb"@.len() == 7,
        "embedder"@.len() == 8,
        "watch_debounce_ms"@ != "language_download"@,
        "data_root"@ != "languages"@,
        "log_path"@ != "embedder"@,
        "context"@ != "lancedb"@,
{
    reveal_strlit("roots");
    reveal_strlit("chunk_max_chars");
    reveal_strlit("chunk_max_tokens");
    reveal_strlit("chunk_overlap_tokens");
    reveal_strlit("watch_debounce_ms");
    reveal_strlit("data_root");
    reveal_strlit("language_pack_root");
    reveal_strlit("languages");
    reveal_strlit("language_download");
    reveal_strlit("log_path");
    reveal_strlit("context");
    reveal_strlit("lancedb");
    reveal_strlit("embedder");
    assert("watch_debounce_ms"@[0] != "language_download"@[0]);
    assert("data_root"@[0] != "languages"@[0]);
    assert("log_path"@[0] != "embedder"@[0]);
    assert("context"@[0] != "lancedb"@[0]);
}

/// Whether a configuration may have a setting.
pub open spec fn known_setting(key: Seq<char>) -> bool {
    ||| key == "roots"@
    ||| key == "chunk_max_chars"@
    ||| key == "chunk_max_tokens"@
    ||| key == "chunk_overlap_tokens"@
    ||| key == "watch_debounce_ms"@
    ||| key == "data_root"@
    ||| key == "language_pack_root"@
    ||| key == "languages"@
    ||| key == "language_download"@
    ||| key == "log_path"@
    ||| key == "context"@
    ||| key == "lancedb"@
    ||| key == "embedder"@
}

/// Whether a configuration is what settings make of another one, besides the
/// directories for data and the limit for chunks. Each setting changes its own part
/// and no other.
pub open spec fn is_set(
    next: ConfigView,
    config: ConfigView,
    settings: Seq<EntryView>,
    decoded: DecodedView,
    world: SurroundingsView,
) -> bool {
    &&& next.chunk_overlap_tokens == match entry(settings, "chunk_overlap_tokens"@) {
        Some(value) => as_unsigned(Some(value))->0,
        None => config.chunk_overlap_tokens,
    }
    &&& next.watch_debounce_ms == match entry(settings, "watch_debounce_ms"@) {
        Some(value) => as_unsigned(Some(value))->0,
        None => config.watch_debounce_ms,
    }
    &&& next.languages == match entry(settings, "languages"@) {
        Some(value) => Some(list_of(value, "languages"@)->Ok_0),
        None => config.languages,
    }
    &&& next.language_download == match entry(settings, "language_download"@) {
        Some(JsonView::Bool(flag)) => flag,
        _ => config.language_download,
    }
    &&& next.log_path == match entry(settings, "log_path"@) {
        Some(JsonView::Text(text)) => if blank(text) {
            None
        } else {
            Some(text)
        },
        _ => config.log_path,
    }
    &&& match entry(settings, "context"@) {
        Some(value) => value is Text && !blank(value->Text_0) && next.context == value->Text_0,
        None => next.context == config.context,
    }
    &&& next.embedder == match entry(settings, "embedder"@) {
        Some(value) => embedder_of(value, decoded)->Ok_0,
        None => config.embedder,
    }
    &&& match entry(settings, "roots"@) {
        Some(_) => {
            &&& with_roots(config, decoded.roots->Ok_0, world) is Ok
            &&& same_roots(next, with_roots(config, decoded.roots->Ok_0, world)->Ok_0)
        },
        None => same_roots(next, config),
    }
    &&& forall|i: int| 0 <= i < settings.len() ==> known_setting((#[trigger] settings[i]).key)
}

/// Whether two configurations have the same roots.
pub open spec fn same_roots(a: ConfigView, b: ConfigView) -> bool {
    &&& a.roots == b.roots
    &&& a.default_root == b.default_root
    &&& a.default_root_canon == b.default_root_canon
}

/// Settings make of a configuration what they say, whatever their order: each part
/// is as the setting with its name says, and as before without one. Other names are
/// refused.
pub proof fn law_settings_are_made(
    config: ConfigView,
    settings: Seq<EntryView>,
    decoded: DecodedView,
    world: SurroundingsView,
)
    requires
        keys_differ(settings),
        overridden(config, JsonView::Object(settings), decoded, world) is Ok,
    ensures
        is_set(
            overridden(config, JsonView::Object(settings), decoded, world)->Ok_0,
            config,
            settings,
            decoded,
            world,
        ),
{
    lemma_settings_made(config, settings, JsonView::Object(settings), decoded, world);
}

/// What the settings that are left make of a configuration.
proof fn lemma_settings_made(
    config: ConfigView,
    settings: Seq<EntryView>,
    all: JsonView,
    decoded: DecodedView,
    world: SurroundingsView,
)
    requires
        keys_differ(settings),
        all_changed(config, settings, all, decoded, world) is Ok,
    ensures
        is_set(
            all_changed(config, settings, all, decoded, world)->Ok_0,
            config,
            settings,
            decoded,
            world,
        ),
    decreases settings.len(),
{
    lemma_setting_names();
    if settings.len() > 0 {
        let first = settings[0];
        let behind = settings.drop_first();
        let next = changed(config, first.key, first.value, all, decoded, world)->Ok_0;
        let done = all_changed(config, settings, all, decoded, world)->Ok_0;
        assert(keys_differ(behind)) by {
            assert forall|i: int, j: int| 0 <= i < j < behind.len() implies (#[trigger] behind[i]).key
                != (#[trigger] behind[j]).key by {
                assert(settings[i + 1].key != settings[j + 1].key);
            }
        }
        lemma_settings_made(next, behind, all, decoded, world);
        assert(entry(behind, first.key) is None) by {
            lemma_entry(behind, first.key);
            if entry(behind, first.key) is Some {
                let i = choose|i: int|
                    0 <= i < behind.len() && (#[trigger] behind[i]).key == first.key
                        && behind[i].value == entry(behind, first.key)->0;
                assert(settings[0].key != settings[i + 1].key);
            }
        }
        assert forall|i: int| 0 <= i < settings.len() implies known_setting(
            (#[trigger] settings[i]).key,
        ) by {
            if i > 0 {
                assert(settings[i] == behind[i - 1]);
            }
        }
        lemma_one_setting(config, first, all, decoded, world);
    }
}

/// What one setting makes of a configuration.
proof fn lemma_one_setting(
    config: ConfigView,
    first: EntryView,
    all: JsonView,
    decoded: DecodedView,
    world: SurroundingsView,
)
    requires
        changed(config, first.key, first.value, all, decoded, world) is Ok,
    ensures
        is_set(
            changed(config, first.key, first.value, all, decoded, world)->Ok_0,
            config,
            seq![first],
            decoded,
            world,
        ),
{
    lemma_setting_names();
    let one = seq![first];
    assert(one[0] == first);
    assert(one.drop_first() =~= Seq::<EntryView>::empty());
    assert forall|key: Seq<char>| #[trigger] entry(one, key) == if first.key == key {
        Some(first.value)
    } else {
        None
    } by {
        assert(entry(one.drop_first(), key) is None);
    }
}

/// A limit in characters stands for the tokens that fit into it, and for one at
/// least.
pub proof fn law_tokens_within(chars: int)
    requires
        0 <= chars,
    ensures
        chars == 0 <==> tokens_within(chars) == 0,
        4 <= chars ==> 4 * tokens_within(chars) <= chars,
        chars < 4 * (tokens_within(chars) + 1),
{
}

// ---------------------------------------------------------------------------
// Roots
// ---------------------------------------------------------------------------

/// Whether a root is the one that a client asks for: its path is seen from the
/// working directory, and it has the patterns that were asked for.
pub open spec fn is_asked_root(
    root: RootView,
    input: RootInputView,
    world: SurroundingsView,
) -> bool {
    &&& root.path == root_path(input.path, world.cwd)
    &&& root.path_canon == canonical_path(root.path, world.canonical)
    &&& absolute(input.path) ==> root.display == input.path
    &&& root.deny == input.deny
    &&& root.allow == input.allow
}

/// Whether the root at a position is the default among those that are asked for: the
/// first that asks for it or, where none does, the first.
pub open spec fn is_default(inputs: Seq<RootInputView>, at: int) -> bool {
    &&& 0 <= at < inputs.len()
    &&& forall|k: int| 0 <= k < at ==> (#[trigger] inputs[k]).default != Some(true)
    &&& inputs[at].default == Some(true) || (at == 0 && forall|k: int|
        0 <= k < inputs.len() ==> (#[trigger] inputs[k]).default != Some(true))
}

/// A client gets the roots that it asks for, in their order. One of them is the
/// default. It cannot block any.
pub proof fn law_roots_as_asked(
    config: ConfigView,
    inputs: Seq<RootInputView>,
    world: SurroundingsView,
)
    ensures
        with_roots(config, inputs, world) is Ok <==> forall|i: int|
            0 <= i < inputs.len() ==> (#[trigger] inputs[i]).blocked is None,
        match with_roots(config, inputs, world) {
            Ok(next) => {
                &&& next.roots.len() == inputs.len()
                &&& forall|i: int|
                    0 <= i < inputs.len() ==> is_asked_root(
                        #[trigger] next.roots[i],
                        inputs[i],
                        world,
                    ) && (next.roots[i].default <==> is_default(inputs, i))
                &&& forall|i: int|
                    0 <= i < inputs.len() && (#[trigger] next.roots[i]).default ==> {
                        &&& next.default_root == next.roots[i].path
                        &&& next.default_root_canon == next.roots[i].path_canon
                    }
            },
            Err(_) => true,
        },
{
    if inputs.len() > 0 && !blocks(inputs) {
        let asked = Seq::new(inputs.len(), |i: int| asked_root(inputs[i], world));
        let next = with_roots(config, inputs, world)->Ok_0;
        lemma_default_of(asked, 0);
        let at = default_index(asked, 0);
        assert(final_roots(asked) is Ok);
        assert(next.roots == with_one_default(asked));
        assert forall|i: int| 0 <= i < inputs.len() implies (#[trigger] inputs[i]).default == Some(
            true,
        ) <==> asked[i].default by {}
        assert forall|i: int| 0 <= i < inputs.len() implies is_default(inputs, i) == (i == at) by {
            if is_default(inputs, i) {
                if i < at {
                    assert(!asked[i].default);
                    assert(inputs[i].default != Some(true));
                    assert(inputs[at].default != Some(true));
                    assert(!asked[at].default);
                }
                if at < i {
                    assert(inputs[at].default != Some(true));
                    assert(!asked[at].default);
                    assert(inputs[i].default == Some(true));
                    assert(asked[i].default);
                }
            }
            if i == at {
                assert forall|k: int| 0 <= k < at implies (#[trigger] inputs[k]).default != Some(
                    true,
                ) by {
                    assert(!asked[k].default);
                }
                if inputs[at].default != Some(true) {
                    assert(!asked[at].default);
                    assert forall|k: int| 0 <= k < inputs.len() implies (
                    #[trigger] inputs[k]).default != Some(true) by {
                        assert(!asked[k].default);
                    }
                }
            }
        }
        assert forall|i: int| 0 <= i < inputs.len() implies is_asked_root(
            #[trigger] next.roots[i],
            inputs[i],
            world,
        ) && (next.roots[i].default <==> is_default(inputs, i)) by {
            assert(next.roots[i] == (RootView { default: i == at, ..asked[i] }));
        }
    }
}

/// The position of the default from a position on.
proof fn lemma_default_of(roots: Seq<RootView>, from: int)
    requires
        0 <= from,
        roots.len() > 0,
    ensures
        ({
            let at = default_index(roots, from);
            &&& 0 <= at < roots.len()
            &&& roots[at].default && from <= at ==> forall|k: int|
                from <= k < at ==> !(#[trigger] roots[k]).default
            &&& !(roots[at].default && from <= at) ==> at == 0 && forall|k: int|
                from <= k < roots.len() ==> !(#[trigger] roots[k]).default
        }),
    decreases roots.len() - from,
{
    if from < roots.len() && !roots[from].default {
        lemma_default_of(roots, from + 1);
    }
}

/// The canonical form of a path is the one that is known of it, and the path itself
/// where none is.
pub proof fn law_canonical_path(path: Seq<char>, known: Seq<(Seq<char>, Seq<char>)>)
    ensures
        (forall|i: int| 0 <= i < known.len() ==> (#[trigger] known[i]).0 != path)
            ==> canonical_path(path, known) == path,
        forall|i: int|
            0 <= i < known.len() && (#[trigger] known[i]).0 == path && (forall|k: int|
                0 <= k < i ==> (#[trigger] known[k]).0 != path) ==> canonical_path(path, known)
                == known[i].1,
    decreases known.len(),
{
    if known.len() > 0 {
        let rest = known.drop_first();
        law_canonical_path(path, rest);
        assert forall|i: int|
            0 <= i < known.len() && (#[trigger] known[i]).0 == path && (forall|k: int|
                0 <= k < i ==> (#[trigger] known[k]).0 != path) implies canonical_path(path, known)
            == known[i].1 by {
            if i > 0 {
                assert(known[0].0 != path);
                assert(rest[i - 1] == known[i]);
                assert forall|k: int| 0 <= k < i - 1 implies (#[trigger] rest[k]).0 != path by {
                    assert(known[k + 1] == rest[k]);
                }
            }
        }
        if forall|i: int| 0 <= i < known.len() ==> (#[trigger] known[i]).0 != path {
            assert(known[0].0 != path);
            assert forall|i: int| 0 <= i < rest.len() implies (#[trigger] rest[i]).0 != path by {
                assert(known[i + 1] == rest[i]);
            }
        }
    }
}

// ---------------------------------------------------------------------------
// The embedder
// ---------------------------------------------------------------------------

/// What is needed of an embedder is there.
pub open spec fn is_complete(config: EmbedderView) -> bool {
    ||| config.provider == "fastembed"@ && config.fastembed is Some && !blank(
        (config.fastembed->0).model_path,
    )
    ||| config.provider == "ollama"@ && config.ollama is Some && !blank(
        (config.ollama->0).base_url,
    ) && !blank((config.ollama->0).model)
    ||| config.provider == "openai"@ && config.openai is Some && !blank(
        (config.openai->0).api_key_env,
    ) && !blank((config.openai->0).model)
}

/// The choice of an embedder is read part by part: what is not given is not there,
/// one job runs at once where nothing is said, and what the provider needs has to be
/// given.
pub proof fn law_embedder_is_read(value: JsonView, decoded: DecodedView)
    ensures
        match embedder_of(value, decoded) {
            Ok(config) => {
                &&& as_text(field(value, "provider"@)) == Some(config.provider)
                &&& config.concurrency == match field(value, "concurrency"@) {
                    Some(number) => as_unsigned(Some(number))->0,
                    None => 1,
                }
                &&& config.fastembed == if field(value, "fastembed"@) is Some {
                    Some(decoded.fastembed->Ok_0)
                } else {
                    None
                }
                &&& config.ollama == if field(value, "ollama"@) is Some {
                    Some(decoded.ollama->Ok_0)
                } else {
                    None
                }
                &&& config.openai == if field(value, "openai"@) is Some {
                    Some(decoded.openai->Ok_0)
                } else {
                    None
                }
                &&& is_complete(config)
            },
            Err(_) => true,
        },
{
}

/// A choice is refused exactly where something that its provider needs is missing.
pub proof fn law_embedder_fault(config: EmbedderView)
    ensures
        embedder_fault(config) is None <==> is_complete(config),
{
    reveal_strlit("fastembed");
    reveal_strlit("ollama");
    reveal_strlit("openai");
    assert("fastembed"@.len() == 9);
    assert("ollama"@.len() == 6);
    assert("openai"@.len() == 6);
    assert("ollama"@[1] != "openai"@[1]);
}

// ---------------------------------------------------------------------------
// The work in the background
// ---------------------------------------------------------------------------

/// The work in the background is done on all roots, in their order, as configured;
/// there is none without a root.
pub proof fn law_background_follows_config(config: ConfigView)
    ensures
        match background(config) {
            Some(plan) => {
                &&& plan.roots.len() == config.roots.len()
                &&& forall|i: int|
                    0 <= i < plan.roots.len() ==> #[trigger] plan.roots[i] == config.roots[i].path
                &&& plan.max_tokens == config.chunk_max_tokens
                &&& plan.overlap_tokens == config.chunk_overlap_tokens
                &&& plan.concurrency == config.embedder.concurrency
                &&& plan.debounce_ms == config.watch_debounce_ms
                &&& plan.language_pack_root == config.language_pack_root
                &&& plan.languages == config.languages
                &&& plan.language_download == config.language_download
                &&& plan.embedder == config.embedder
            },
            None => true,
        },
        background(config) is None <==> config.roots.len() == 0,
{
}

/// The settings of a client are found where it sends them: below its experimental
/// capabilities.
pub proof fn law_sent_settings(params: JsonView, capabilities: JsonView, experimental: JsonView)
    requires
        field(params, "capabilities"@) == Some(capabilities),
        field(capabilities, "experimental"@) == Some(experimental),
    ensures
        sent_settings(params) == field(experimental, "configuration"@),
{
}

/// Instances with different names have different stores.
pub proof fn law_instances_lie_apart(config: ConfigView, other: ConfigView)
    requires
        config.lancedb_path == other.lancedb_path,
        !absolute(config.context),
        !absolute(other.context),
        instance_store(config) == instance_store(other),
    ensures
        config.context == other.context,
        background(config) is Some ==> (background(config)->0).lancedb_path == instance_store(
            config,
        ),
        under(instance_store(config), config.lancedb_path),
{
    let path = instance_store(config);
    crate::path_laws::law_joined_is_under(config.lancedb_path, config.context);
    assert(path.skip(path.len() - config.context.len()) =~= config.context);
    assert(path.skip(path.len() - other.context.len()) =~= other.context);
}

/// Before a client changes anything, the working directory is the only root.
pub proof fn law_initial_root(world: SurroundingsView)
    ensures
        ({
            let config = initial_config(world);
            &&& config.roots.len() == 1
            &&& config.roots[0].path == normalized(world.cwd)
            &&& config.roots[0].path_canon == canonical_path(
                config.roots[0].path,
                world.canonical,
            )
            &&& config.roots[0].default
            &&& config.roots[0].deny.len() == 0
            &&& config.roots[0].allow.len() == 0
            &&& config.default_root == config.roots[0].path
            &&& config.default_root_canon == config.roots[0].path_canon
            &&& is_complete(config.embedder)
        }),
{
    reveal_strlit("./models/bge");
    assert(!blank("./models/bge"@)) by {
        assert(!white("./models/bge"@[0]));
    }
}

// ---------------------------------------------------------------------------
// When settings are taken
// ---------------------------------------------------------------------------

/// Whether a value is a number that fits.
pub open spec fn is_number(value: JsonView, most: int) -> bool {
    as_unsigned(Some(value)) is Some && as_unsigned(Some(value))->0 <= most
}

/// Whether a setting can be made.
pub open spec fn can_be_made(
    item: EntryView,
    decoded: DecodedView,
) -> bool {
    let key = item.key;
    let value = item.value;
    ||| key == "roots"@ && decoded.roots is Ok && !blocks(decoded.roots->Ok_0)
    ||| (key == "chunk_max_chars"@ || key == "chunk_max_tokens"@ || key == "chunk_overlap_tokens"@)
        && is_number(value, usize::MAX as int)
    ||| key == "watch_debounce_ms"@ && as_unsigned(Some(value)) is Some
    ||| (key == "data_root"@ || key == "language_pack_root"@) && value is Text
    ||| key == "languages"@ && list_of(value, key) is Ok
    ||| key == "language_download"@ && (value is Bool || value is Null)
    ||| key == "log_path"@ && (value is Text || value is Null)
    ||| key == "context"@ && value is Text && !blank(value->Text_0)
    ||| key == "lancedb"@ && value is Object && (field(value, "path"@) is None || field(
        value,
        "path"@,
    )->0 is Text)
    ||| key == "embedder"@ && embedder_of(value, decoded) is Ok
}

/// Settings are taken exactly where each of them can be made.
pub proof fn law_settings_are_taken(
    config: ConfigView,
    settings: Seq<EntryView>,
    decoded: DecodedView,
    world: SurroundingsView,
)
    ensures
        overridden(config, JsonView::Object(settings), decoded, world) is Ok <==> forall|i: int|
            0 <= i < settings.len() ==> can_be_made(#[trigger] settings[i], decoded),
{
    lemma_settings_taken(config, settings, JsonView::Object(settings), decoded, world);
}

/// One setting is taken where it can be made.
proof fn lemma_setting_taken(
    config: ConfigView,
    item: EntryView,
    all: JsonView,
    decoded: DecodedView,
    world: SurroundingsView,
)
    ensures
        changed(config, item.key, item.value, all, decoded, world) is Ok <==> can_be_made(
            item,
            decoded,
        ),
{
    lemma_setting_names();
    if item.key == "roots"@ && decoded.roots is Ok {
        let inputs = decoded.roots->Ok_0;
        law_roots_as_asked(config, inputs, world);
        if blocks(inputs) {
            let i = choose|i: int| 0 <= i < inputs.len() && (#[trigger] inputs[i]).blocked is Some;
            assert(!(inputs[i].blocked is None));
        }
    }
}

/// The settings that are left are taken where each of them can be made.
proof fn lemma_settings_taken(
    config: ConfigView,
    settings: Seq<EntryView>,
    all: JsonView,
    decoded: DecodedView,
    world: SurroundingsView,
)
    ensures
        all_changed(config, settings, all, decoded, world) is Ok <==> forall|i: int|
            0 <= i < settings.len() ==> can_be_made(#[trigger] settings[i], decoded),
    decreases settings.len(),
{
    if settings.len() > 0 {
        let first = settings[0];
        let behind = settings.drop_first();
        lemma_setting_taken(config, first, all, decoded, world);
        if can_be_made(first, decoded) {
            let next = changed(config, first.key, first.value, all, decoded, world)->Ok_0;
            lemma_settings_taken(next, behind, all, decoded, world);
            if forall|i: int| 0 <= i < behind.len() ==> can_be_made(#[trigger] behind[i], decoded) {
                assert forall|i: int| 0 <= i < settings.len() implies can_be_made(
                    #[trigger] settings[i],
                    decoded,
                ) by {
                    if i > 0 {
                        assert(settings[i] == behind[i - 1]);
                    }
                }
            } else {
                let i = choose|i: int|
                    0 <= i < behind.len() && !can_be_made(#[trigger] behind[i], decoded);
                assert(settings[i + 1] == behind[i]);
            }
        }
    }
}

/// The choice of an embedder is taken exactly where its provider is named, what is
/// given of it can be read, and what the provider needs is given.
pub proof fn law_embedder_is_taken(value: JsonView, decoded: DecodedView)
    ensures
        embedder_of(value, decoded) is Ok <==> {
            &&& value is Object
            &&& as_text(field(value, "provider"@)) is Some
            &&& field(value, "concurrency"@) is Some ==> is_number(
                field(value, "concurrency"@)->0,
                usize::MAX as int,
            )
            &&& field(value, "fastembed"@) is Some ==> decoded.fastembed is Ok
            &&& field(value, "ollama"@) is Some ==> decoded.ollama is Ok
            &&& field(value, "openai"@) is Some ==> decoded.openai is Ok
            &&& is_complete(
                EmbedderView {
                    provider: as_text(field(value, "provider"@))->0,
                    concurrency: 1,
                    fastembed: if field(value, "fastembed"@) is Some {
                        Some(decoded.fastembed->Ok_0)
                    } else {
                        None
                    },
                    ollama: if field(value, "ollama"@) is Some {
                        Some(decoded.ollama->Ok_0)
                    } else {
                        None
                    },
                    openai: if field(value, "openai"@) is Some {
                        Some(decoded.openai->Ok_0)
                    } else {
                        None
                    },
                },
            )
        },
{
    let config = EmbedderView {
        provider: as_text(field(value, "provider"@))->0,
        concurrency: match field(value, "concurrency"@) {
            Some(number) => as_unsigned(Some(number))->0,
            None => 1,
        },
        fastembed: if field(value, "fastembed"@) is Some {
            Some(decoded.fastembed->Ok_0)
        } else {
            None
        },
        ollama: if field(value, "ollama"@) is Some {
            Some(decoded.ollama->Ok_0)
        } else {
            None
        },
        openai: if field(value, "openai"@) is Some {
            Some(decoded.openai->Ok_0)
        } else {
            None
        },
    };
    law_embedder_fault(config);
}

} // verus!
