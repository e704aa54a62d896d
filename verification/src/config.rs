//! The configuration of the server, and how it is changed by a client.
use crate::json::{
    as_text, entries_view, field, get, lemma_list_view, lemma_object_view, Json, JsonNumber,
    JsonView, NumberView,
};
use crate::paths::{
    absolute, is_absolute, join_path, joined_path, normalize_path, normalize_relative,
    normalize_root_path, normalized, root_path, shown_path,
};
use crate::sorting::views;
use crate::text::{blank, clone_texts, concat, is_blank, same_text, texts};
pub use crate::schema::config_schema;
use crate::types::{copy_text, text_view};
use vstd::prelude::*;

verus! {

// ---------------------------------------------------------------------------
// The configuration
// ---------------------------------------------------------------------------

/// The configuration of the server.
#[derive(Clone, Debug)]
pub struct Config {
    pub roots: Vec<RootConfig>,
    pub default_root: String,
    pub default_root_canon: String,
    pub chunk_max_tokens: usize,
    pub chunk_overlap_tokens: usize,
    pub watch_debounce_ms: u64,
    pub language_pack_root: String,
    pub languages: Option<Vec<String>>,
    pub language_download: bool,
    pub context: String,
    pub embedder: EmbedderConfig,
    pub lancedb_path: String,
    pub log_path: Option<String>,
}

/// A directory that is indexed.
#[derive(Clone, Debug)]
pub struct RootConfig {
    pub path: String,
    pub path_canon: String,
    pub display: String,
    pub default: bool,
    pub deny: Vec<String>,
    pub allow: Vec<String>,
}

/// Which embedder is used, and how.
#[derive(Clone, Debug)]
pub struct EmbedderConfig {
    pub provider: String,
    pub concurrency: usize,
    pub fastembed: Option<FastembedConfig>,
    pub ollama: Option<OllamaConfig>,
    pub openai: Option<OpenAiConfig>,
}

/// How the local embedder is used.
#[derive(Clone, Debug)]
pub struct FastembedConfig {
    pub model: Option<String>,
    pub model_path: String,
}

/// How an Ollama server is used.
#[derive(Clone, Debug)]
pub struct OllamaConfig {
    pub base_url: String,
    pub model: String,
    pub batch: bool,
}

/// How the service of OpenAI is used.
#[derive(Clone, Debug)]
pub struct OpenAiConfig {
    pub api_key_env: String,
    pub model: String,
}

/// A root as a client gives it.
#[derive(Clone, Debug)]
pub struct RootInput {
    pub path: String,
    pub default: Option<bool>,
    pub deny: Vec<String>,
    pub allow: Vec<String>,
    pub blocked: Option<bool>,
}

/// The configuration as a mathematical value.
#[verifier::ext_equal]
pub struct ConfigView {
    pub roots: Seq<RootView>,
    pub default_root: Seq<char>,
    pub default_root_canon: Seq<char>,
    pub chunk_max_tokens: int,
    pub chunk_overlap_tokens: int,
    pub watch_debounce_ms: int,
    pub language_pack_root: Seq<char>,
    pub languages: Option<Seq<Seq<char>>>,
    pub language_download: bool,
    pub context: Seq<char>,
    pub embedder: EmbedderView,
    pub lancedb_path: Seq<char>,
    pub log_path: Option<Seq<char>>,
}

/// A root as a mathematical value.
#[verifier::ext_equal]
pub struct RootView {
    pub path: Seq<char>,
    pub path_canon: Seq<char>,
    pub display: Seq<char>,
    pub default: bool,
    pub deny: Seq<Seq<char>>,
    pub allow: Seq<Seq<char>>,
}

/// The choice of an embedder as a mathematical value.
#[verifier::ext_equal]
pub struct EmbedderView {
    pub provider: Seq<char>,
    pub concurrency: int,
    pub fastembed: Option<FastembedView>,
    pub ollama: Option<OllamaView>,
    pub openai: Option<OpenAiView>,
}

/// How the local embedder is used, as a mathematical value.
#[verifier::ext_equal]
pub struct FastembedView {
    pub model: Option<Seq<char>>,
    pub model_path: Seq<char>,
}

/// How an Ollama server is used, as a mathematical value.
#[verifier::ext_equal]
pub struct OllamaView {
    pub base_url: Seq<char>,
    pub model: Seq<char>,
    pub batch: bool,
}

/// How the service of OpenAI is used, as a mathematical value.
#[verifier::ext_equal]
pub struct OpenAiView {
    pub api_key_env: Seq<char>,
    pub model: Seq<char>,
}

/// A root as a client gives it, as a mathematical value.
#[verifier::ext_equal]
pub struct RootInputView {
    pub path: Seq<char>,
    pub default: Option<bool>,
    pub deny: Seq<Seq<char>>,
    pub allow: Seq<Seq<char>>,
    pub blocked: Option<bool>,
}

/// An optional value as a mathematical value.
pub open spec fn option_view<T: View>(value: Option<T>) -> Option<T::V> {
    match value {
        Some(value) => Some(value@),
        None => None,
    }
}

/// A result with a message as a mathematical value.
pub open spec fn result_view<T: View>(result: Result<T, String>) -> Result<T::V, Seq<char>> {
    match result {
        Ok(value) => Ok(value@),
        Err(message) => Err(message@),
    }
}

/// An optional list of texts as a mathematical value.
pub open spec fn texts_view(list: Option<Vec<String>>) -> Option<Seq<Seq<char>>> {
    match list {
        Some(list) => Some(texts(list@)),
        None => None,
    }
}

impl View for Config {
    type V = ConfigView;

    open spec fn view(&self) -> ConfigView {
        ConfigView {
            roots: views(self.roots@),
            default_root: self.default_root@,
            default_root_canon: self.default_root_canon@,
            chunk_max_tokens: self.chunk_max_tokens as int,
            chunk_overlap_tokens: self.chunk_overlap_tokens as int,
            watch_debounce_ms: self.watch_debounce_ms as int,
            language_pack_root: self.language_pack_root@,
            languages: texts_view(self.languages),
            language_download: self.language_download,
            context: self.context@,
            embedder: self.embedder@,
            lancedb_path: self.lancedb_path@,
            log_path: text_view(self.log_path),
        }
    }
}

impl View for RootConfig {
    type V = RootView;

    open spec fn view(&self) -> RootView {
        RootView {
            path: self.path@,
            path_canon: self.path_canon@,
            display: self.display@,
            default: self.default,
            deny: texts(self.deny@),
            allow: texts(self.allow@),
        }
    }
}

impl View for EmbedderConfig {
    type V = EmbedderView;

    open spec fn view(&self) -> EmbedderView {
        EmbedderView {
            provider: self.provider@,
            concurrency: self.concurrency as int,
            fastembed: option_view(self.fastembed),
            ollama: option_view(self.ollama),
            openai: option_view(self.openai),
        }
    }
}

impl View for FastembedConfig {
    type V = FastembedView;

    open spec fn view(&self) -> FastembedView {
        FastembedView { model: text_view(self.model), model_path: self.model_path@ }
    }
}

impl View for OllamaConfig {
    type V = OllamaView;

    open spec fn view(&self) -> OllamaView {
        OllamaView { base_url: self.base_url@, model: self.model@, batch: self.batch }
    }
}

impl View for OpenAiConfig {
    type V = OpenAiView;

    open spec fn view(&self) -> OpenAiView {
        OpenAiView { api_key_env: self.api_key_env@, model: self.model@ }
    }
}

impl View for RootInput {
    type V = RootInputView;

    open spec fn view(&self) -> RootInputView {
        RootInputView {
            path: self.path@,
            default: self.default,
            deny: texts(self.deny@),
            allow: texts(self.allow@),
            blocked: self.blocked,
        }
    }
}

// ---------------------------------------------------------------------------
// Copies
// ---------------------------------------------------------------------------

/// A copy of an optional list of texts.
pub fn copy_texts(list: &Option<Vec<String>>) -> (copy: Option<Vec<String>>)
    ensures
        texts_view(copy) == texts_view(*list),
{
    match list {
        Some(list) => Some(clone_texts(list)),
        None => None,
    }
}

/// A copy of a root.
pub fn copy_root(root: &RootConfig) -> (copy: RootConfig)
    ensures
        copy@ == root@,
{
    RootConfig {
        path: root.path.clone(),
        path_canon: root.path_canon.clone(),
        display: root.display.clone(),
        default: root.default,
        deny: clone_texts(&root.deny),
        allow: clone_texts(&root.allow),
    }
}

/// A copy of a list of roots.
pub fn copy_roots(roots: &Vec<RootConfig>) -> (copy: Vec<RootConfig>)
    ensures
        views(copy@) == views(roots@),
{
    let ghost all = views(roots@);
    let mut copy: Vec<RootConfig> = Vec::new();
    let mut i: usize = 0;
    assert(views(copy@) =~= all.take(0));
    while i < roots.len()
        invariant
            i <= roots@.len(),
            all == views(roots@),
            views(copy@) == all.take(i as int),
        decreases roots@.len() - i,
    {
        let root = copy_root(&roots[i]);
        proof {
            assert(views(copy@.push(root)) =~= views(copy@).push(root@));
            assert(all.take(i + 1) =~= all.take(i as int).push(all[i as int]));
        }
        copy.push(root);
        i = i + 1;
    }
    assert(all.take(i as int) =~= all);
    copy
}

/// A copy of the use of the local embedder.
pub fn copy_fastembed(config: &FastembedConfig) -> (copy: FastembedConfig)
    ensures
        copy@ == config@,
{
    FastembedConfig { model: copy_text(&config.model), model_path: config.model_path.clone() }
}

/// A copy of the use of an Ollama server.
pub fn copy_ollama(config: &OllamaConfig) -> (copy: OllamaConfig)
    ensures
        copy@ == config@,
{
    OllamaConfig {
        base_url: config.base_url.clone(),
        model: config.model.clone(),
        batch: config.batch,
    }
}

/// A copy of the use of the service of OpenAI.
pub fn copy_openai(config: &OpenAiConfig) -> (copy: OpenAiConfig)
    ensures
        copy@ == config@,
{
    OpenAiConfig { api_key_env: config.api_key_env.clone(), model: config.model.clone() }
}

/// A copy of the choice of an embedder.
pub fn copy_embedder(config: &EmbedderConfig) -> (copy: EmbedderConfig)
    ensures
        copy@ == config@,
{
    EmbedderConfig {
        provider: config.provider.clone(),
        concurrency: config.concurrency,
        fastembed: match &config.fastembed {
            Some(own) => Some(copy_fastembed(own)),
            None => None,
        },
        ollama: match &config.ollama {
            Some(own) => Some(copy_ollama(own)),
            None => None,
        },
        openai: match &config.openai {
            Some(own) => Some(copy_openai(own)),
            None => None,
        },
    }
}

/// A copy of the configuration.
pub fn copy_config(config: &Config) -> (copy: Config)
    ensures
        copy@ == config@,
{
    Config {
        roots: copy_roots(&config.roots),
        default_root: config.default_root.clone(),
        default_root_canon: config.default_root_canon.clone(),
        chunk_max_tokens: config.chunk_max_tokens,
        chunk_overlap_tokens: config.chunk_overlap_tokens,
        watch_debounce_ms: config.watch_debounce_ms,
        language_pack_root: config.language_pack_root.clone(),
        languages: copy_texts(&config.languages),
        language_download: config.language_download,
        context: config.context.clone(),
        embedder: copy_embedder(&config.embedder),
        lancedb_path: config.lancedb_path.clone(),
        log_path: copy_text(&config.log_path),
    }
}

// ---------------------------------------------------------------------------
// Surroundings
// ---------------------------------------------------------------------------

/// A path and what the file system calls it.
#[derive(Clone, Debug)]
pub struct CanonicalPath {
    pub path: String,
    pub canonical: String,
}

/// What the configuration depends on besides what the client sends: the working
/// directory, and the canonical forms of paths that exist.
#[derive(Clone, Debug)]
pub struct Surroundings {
    pub cwd: String,
    pub canonical: Vec<CanonicalPath>,
}

/// The surroundings as a mathematical value.
#[verifier::ext_equal]
pub struct SurroundingsView {
    pub cwd: Seq<char>,
    pub canonical: Seq<(Seq<char>, Seq<char>)>,
}

impl View for CanonicalPath {
    type V = (Seq<char>, Seq<char>);

    open spec fn view(&self) -> (Seq<char>, Seq<char>) {
        (self.path@, self.canonical@)
    }
}

impl View for Surroundings {
    type V = SurroundingsView;

    open spec fn view(&self) -> SurroundingsView {
        SurroundingsView { cwd: self.cwd@, canonical: views(self.canonical@) }
    }
}

/// The canonical form of a path: the first one that is known, else the path
/// itself.
pub open spec fn canonical_path(path: Seq<char>, known: Seq<(Seq<char>, Seq<char>)>) -> Seq<char>
    decreases known.len(),
{
    if known.len() == 0 {
        path
    } else if known[0].0 == path {
        known[0].1
    } else {
        canonical_path(path, known.drop_first())
    }
}

/// The canonical form of `path` where one is known, else `path`.
pub fn canonicalize_or_self(path: &str, known: &Vec<CanonicalPath>) -> (canonical: String)
    ensures
        canonical@ == canonical_path(path@, views(known@)),
{
    let ghost all = views(known@);
    let mut i: usize = 0;
    assert(all.skip(0) =~= all);
    while i < known.len()
        invariant
            i <= known@.len(),
            all == views(known@),
            canonical_path(path@, all) == canonical_path(path@, all.skip(i as int)),
        decreases known@.len() - i,
    {
        proof {
            assert(all.skip(i as int)[0] == known@[i as int]@);
            assert(all.skip(i as int).drop_first() =~= all.skip(i + 1));
        }
        if same_text(known[i].path.as_str(), path) {
            return known[i].canonical.clone();
        }
        i = i + 1;
    }
    path.to_owned()
}

// ---------------------------------------------------------------------------
// Values
// ---------------------------------------------------------------------------

/// What a value gives as a `usize`.
pub open spec fn usize_of(value: JsonView, name: Seq<char>) -> Result<int, Seq<char>> {
    match value {
        JsonView::Number(NumberView::Unsigned(number)) => if number <= usize::MAX {
            Ok(number)
        } else {
            Err(name + " out of range"@)
        },
        _ => Err(name + " must be an integer"@),
    }
}

/// What a value gives as a `u64`.
pub open spec fn u64_of(value: JsonView, name: Seq<char>) -> Result<int, Seq<char>> {
    match value {
        JsonView::Number(NumberView::Unsigned(number)) => Ok(number),
        _ => Err(name + " must be an integer"@),
    }
}

/// Reads a `usize`.
pub fn parse_usize_value(value: &Json, name: &str) -> (number: Result<usize, String>)
    ensures
        match number {
            Ok(number) => usize_of(value@, name@) == Ok::<int, Seq<char>>(number as int),
            Err(message) => usize_of(value@, name@) == Err::<int, Seq<char>>(message@),
        },
{
    match value {
        Json::Number(JsonNumber::Unsigned(number)) => if *number <= usize::MAX as u64 {
            Ok(*number as usize)
        } else {
            Err(concat(name, " out of range"))
        },
        _ => Err(concat(name, " must be an integer")),
    }
}

/// Reads a `u64`.
pub fn parse_u64_value(value: &Json, name: &str) -> (number: Result<u64, String>)
    ensures
        match number {
            Ok(number) => u64_of(value@, name@) == Ok::<int, Seq<char>>(number as int),
            Err(message) => u64_of(value@, name@) == Err::<int, Seq<char>>(message@),
        },
{
    match value {
        Json::Number(JsonNumber::Unsigned(number)) => Ok(*number),
        _ => Err(concat(name, " must be an integer")),
    }
}

/// What a value gives as a text.
pub open spec fn text_of(value: JsonView, name: Seq<char>) -> Result<Seq<char>, Seq<char>> {
    match value {
        JsonView::Text(text) => Ok(text),
        _ => Err(name + " must be a string"@),
    }
}

/// Reads a text.
pub fn parse_text_value(value: &Json, name: &str) -> (text: Result<String, String>)
    ensures
        match text {
            Ok(text) => text_of(value@, name@) == Ok::<Seq<char>, Seq<char>>(text@),
            Err(message) => text_of(value@, name@) == Err::<Seq<char>, Seq<char>>(message@),
        },
{
    match value {
        Json::Text(text) => Ok(text.clone()),
        _ => Err(concat(name, " must be a string")),
    }
}

/// The texts in `items` that are not blank. Nothing where an item is no text.
pub open spec fn texts_in(items: Seq<JsonView>) -> Option<Seq<Seq<char>>>
    decreases items.len(),
{
    if items.len() == 0 {
        Some(Seq::empty())
    } else {
        match (texts_in(items.drop_last()), items.last()) {
            (Some(init), JsonView::Text(text)) => if blank(text) {
                Some(init)
            } else {
                Some(init.push(text))
            },
            _ => None,
        }
    }
}

/// What a value gives as a list of texts: the ones in a list, or the one that
/// it is, without blank ones.
pub open spec fn list_of(value: JsonView, name: Seq<char>) -> Result<Seq<Seq<char>>, Seq<char>> {
    match value {
        JsonView::List(items) => match texts_in(items) {
            Some(list) => Ok(list),
            None => Err(name + " must be strings"@),
        },
        JsonView::Text(text) => if blank(text) {
            Ok(Seq::empty())
        } else {
            Ok(Seq::empty().push(text))
        },
        _ => Err(name + " must be a string or array of strings"@),
    }
}

/// Nothing comes of more items where there is nothing of fewer.
proof fn lemma_texts_in_none(items: Seq<JsonView>, fewer: int)
    requires
        0 <= fewer <= items.len(),
        texts_in(items.take(fewer)) is None,
    ensures
        texts_in(items) is None,
    decreases items.len() - fewer,
{
    if fewer < items.len() {
        assert(items.take(fewer + 1).drop_last() =~= items.take(fewer));
        lemma_texts_in_none(items, fewer + 1);
    } else {
        assert(items.take(fewer) =~= items);
    }
}

/// Reads a list of texts, which may be given as one text. Blank texts do not
/// count.
pub fn parse_string_list(value: &Json, name: &str) -> (list: Result<Vec<String>, String>)
    ensures
        match list {
            Ok(list) => list_of(value@, name@) == Ok::<Seq<Seq<char>>, Seq<char>>(texts(list@)),
            Err(message) => list_of(value@, name@) == Err::<Seq<Seq<char>>, Seq<char>>(message@),
        },
{
    match value {
        Json::List(items) => {
            let ghost all = crate::json::items_view(items@);
            proof {
                lemma_list_view(*items);
            }
            let mut list: Vec<String> = Vec::new();
            let mut i: usize = 0;
            assert(texts(list@) =~= Seq::<Seq<char>>::empty());
            while i < items.len()
                invariant
                    i <= items@.len(),
                    all == crate::json::items_view(items@),
                    value@ == JsonView::List(all),
                    texts_in(all.take(i as int)) == Some(texts(list@)),
                decreases items@.len() - i,
            {
                let ghost before = texts(list@);
                proof {
                    assert(all.take(i + 1).drop_last() =~= all.take(i as int));
                    assert(all[i as int] == items@[i as int]@);
                }
                match &items[i] {
                    Json::Text(text) => {
                        if !is_blank(text.as_str()) {
                            list.push(text.clone());
                            assert(texts(list@) =~= before.push(text@));
                        }
                    },
                    _ => {
                        proof {
                            lemma_texts_in_none(all, i + 1);
                        }
                        return Err(concat(name, " must be strings"));
                    },
                }
                i = i + 1;
            }
            assert(all.take(i as int) =~= all);
            Ok(list)
        },
        Json::Text(text) => {
            let mut list: Vec<String> = Vec::new();
            assert(texts(list@) =~= Seq::<Seq<char>>::empty());
            if !is_blank(text.as_str()) {
                list.push(text.clone());
                assert(texts(list@) =~= Seq::empty().push(text@));
            }
            Ok(list)
        },
        _ => Err(concat(name, " must be a string or array of strings")),
    }
}

// ---------------------------------------------------------------------------
// Roots
// ---------------------------------------------------------------------------

/// The root that a client asks for.
pub open spec fn asked_root(input: RootInputView, world: SurroundingsView) -> RootView {
    let path = root_path(input.path, world.cwd);
    RootView {
        path,
        path_canon: canonical_path(path, world.canonical),
        display: if absolute(input.path) {
            input.path
        } else {
            shown_path(input.path)
        },
        default: input.default == Some(true),
        deny: input.deny,
        allow: input.allow,
    }
}

/// Whether a client tries to block a root.
pub open spec fn blocks(inputs: Seq<RootInputView>) -> bool {
    exists|i: int| 0 <= i < inputs.len() && (#[trigger] inputs[i]).blocked is Some
}

/// The roots that a client asks for. Blocking is not allowed here.
pub open spec fn asked_roots(inputs: Seq<RootInputView>, world: SurroundingsView) -> Result<
    Seq<RootView>,
    Seq<char>,
> {
    if blocks(inputs) {
        Err("root.blocked is only allowed in policy"@)
    } else {
        Ok(Seq::new(inputs.len(), |i: int| asked_root(inputs[i], world)))
    }
}

/// The roots that a client asks for.
pub fn build_root_configs(inputs: &Vec<RootInput>, world: &Surroundings) -> (roots: Result<
    Vec<RootConfig>,
    String,
>)
    ensures
        match roots {
            Ok(roots) => asked_roots(views(inputs@), world@) == Ok::<Seq<RootView>, Seq<char>>(
                views(roots@),
            ),
            Err(message) => asked_roots(views(inputs@), world@) == Err::<Seq<RootView>, Seq<char>>(
                message@,
            ),
        },
{
    let ghost asked = views(inputs@);
    let ghost whole = Seq::new(asked.len(), |i: int| asked_root(asked[i], world@));
    let mut roots: Vec<RootConfig> = Vec::new();
    let mut i: usize = 0;
    assert(views(roots@) =~= whole.take(0));
    while i < inputs.len()
        invariant
            i <= inputs@.len(),
            asked == views(inputs@),
            whole == Seq::new(asked.len(), |i: int| asked_root(asked[i], world@)),
            views(roots@) == whole.take(i as int),
            forall|k: int| 0 <= k < i ==> (#[trigger] asked[k]).blocked is None,
        decreases inputs@.len() - i,
    {
        let input = &inputs[i];
        assert(asked[i as int] == input@);
        if input.blocked.is_some() {
            assert(blocks(asked));
            return Err("root.blocked is only allowed in policy".to_owned());
        }
        let path = normalize_root_path(input.path.as_str(), world.cwd.as_str());
        let canonical = canonicalize_or_self(path.as_str(), &world.canonical);
        let display = if is_absolute(input.path.as_str()) {
            input.path.clone()
        } else {
            normalize_relative(input.path.as_str())
        };
        let default = match input.default {
            Some(flag) => flag,
            None => false,
        };
        let root = RootConfig {
            path,
            path_canon: canonical,
            display,
            default,
            deny: clone_texts(&input.deny),
            allow: clone_texts(&input.allow),
        };
        proof {
            assert(root@ =~= asked_root(asked[i as int], world@));
            assert(views(roots@.push(root)) =~= views(roots@).push(root@));
            assert(whole.take(i + 1) =~= whole.take(i as int).push(whole[i as int]));
        }
        roots.push(root);
        i = i + 1;
    }
    assert(whole.take(i as int) =~= whole);
    Ok(roots)
}

/// The working directory as a root.
pub open spec fn cwd_root(world: SurroundingsView) -> RootView {
    let path = normalized(world.cwd);
    RootView {
        path,
        path_canon: canonical_path(path, world.canonical),
        display: path,
        default: true,
        deny: Seq::empty(),
        allow: Seq::empty(),
    }
}

/// The working directory as a root.
pub fn root_from_cwd(world: &Surroundings) -> (root: RootConfig)
    ensures
        root@ == cwd_root(world@),
{
    let path = normalize_path(world.cwd.as_str());
    let none: Vec<String> = Vec::new();
    assert(texts(none@) =~= Seq::<Seq<char>>::empty());
    RootConfig {
        path: path.clone(),
        path_canon: canonicalize_or_self(path.as_str(), &world.canonical),
        display: path,
        default: true,
        deny: Vec::new(),
        allow: none,
    }
}

/// The position of the first root that asks to be the default, or the first
/// position where none does.
pub open spec fn default_index(roots: Seq<RootView>, from: int) -> int
    decreases roots.len() - from,
{
    if from >= roots.len() {
        0
    } else if roots[from].default {
        from
    } else {
        default_index(roots, from + 1)
    }
}

/// Roots of which exactly one is the default.
pub open spec fn with_one_default(roots: Seq<RootView>) -> Seq<RootView> {
    Seq::new(
        roots.len(),
        |i: int| (RootView { default: i == default_index(roots, 0), ..roots[i] }),
    )
}

/// Roots of which exactly one is the default, with its path and its canonical
/// path. There has to be a root.
pub open spec fn final_roots(roots: Seq<RootView>) -> Result<
    (Seq<RootView>, Seq<char>, Seq<char>),
    Seq<char>,
> {
    let at = default_index(roots, 0);
    if roots.len() == 0 {
        Err("roots are required"@)
    } else {
        Ok((with_one_default(roots), roots[at].path, roots[at].path_canon))
    }
}

/// Makes exactly one root the default, and tells its path and its canonical
/// path.
pub fn finalize_roots(roots: Vec<RootConfig>) -> (out: Result<
    (Vec<RootConfig>, String, String),
    String,
>)
    ensures
        match out {
            Ok(out) => final_roots(views(roots@)) == Ok::<
                (Seq<RootView>, Seq<char>, Seq<char>),
                Seq<char>,
            >((views(out.0@), out.1@, out.2@)),
            Err(message) => final_roots(views(roots@)) == Err::<
                (Seq<RootView>, Seq<char>, Seq<char>),
                Seq<char>,
            >(message@),
        },
{
    let ghost all = views(roots@);
    if roots.len() == 0 {
        return Err("roots are required".to_owned());
    }
    let mut at: usize = 0;
    let mut found = false;
    while !found && at < roots.len()
        invariant
            at <= roots@.len(),
            all == views(roots@),
            default_index(all, 0) == default_index(all, at as int),
            found ==> at < roots@.len() && all[at as int].default,
        decreases roots@.len() - at + if found {
            0int
        } else {
            1
        },
    {
        assert(all[at as int] == roots@[at as int]@);
        if roots[at].default {
            found = true;
        } else {
            at = at + 1;
        }
    }
    if !found {
        at = 0;
    }
    assert(at == default_index(all, 0));
    let ghost done = with_one_default(all);
    let mut out: Vec<RootConfig> = Vec::new();
    let mut i: usize = 0;
    assert(views(out@) =~= done.take(0));
    while i < roots.len()
        invariant
            i <= roots@.len(),
            at < roots@.len(),
            at == default_index(all, 0),
            all == views(roots@),
            done == with_one_default(all),
            views(out@) == done.take(i as int),
        decreases roots@.len() - i,
    {
        let mut root = copy_root(&roots[i]);
        root.default = i == at;
        proof {
            assert(all[i as int] == roots@[i as int]@);
            assert(root@ =~= done[i as int]);
            assert(views(out@.push(root)) =~= views(out@).push(root@));
            assert(done.take(i + 1) =~= done.take(i as int).push(done[i as int]));
        }
        out.push(root);
        i = i + 1;
    }
    assert(done.take(i as int) =~= done);
    assert(all[at as int] == roots@[at as int]@);
    Ok((out, roots[at].path.clone(), roots[at].path_canon.clone()))
}

// ---------------------------------------------------------------------------
// Embedders
// ---------------------------------------------------------------------------

/// The parts of a configuration that are read as a whole, each with the reason
/// where it could not be read. A part is looked at only where the configuration
/// holds it.
#[derive(Debug)]
pub struct Decoded {
    pub roots: Result<Vec<RootInput>, String>,
    pub fastembed: Result<FastembedConfig, String>,
    pub ollama: Result<OllamaConfig, String>,
    pub openai: Result<OpenAiConfig, String>,
}

/// The parts that are read as a whole, as mathematical values.
#[verifier::ext_equal]
pub struct DecodedView {
    pub roots: Result<Seq<RootInputView>, Seq<char>>,
    pub fastembed: Result<FastembedView, Seq<char>>,
    pub ollama: Result<OllamaView, Seq<char>>,
    pub openai: Result<OpenAiView, Seq<char>>,
}

impl View for Decoded {
    type V = DecodedView;

    open spec fn view(&self) -> DecodedView {
        DecodedView {
            roots: match self.roots {
                Ok(roots) => Ok(views(roots@)),
                Err(message) => Err(message@),
            },
            fastembed: result_view(self.fastembed),
            ollama: result_view(self.ollama),
            openai: result_view(self.openai),
        }
    }
}

/// A part of the choice of an embedder, if it is there.
pub open spec fn section<T>(there: bool, part: Result<T, Seq<char>>, name: Seq<char>) -> Result<
    Option<T>,
    Seq<char>,
> {
    if !there {
        Ok(None)
    } else {
        match part {
            Ok(part) => Ok(Some(part)),
            Err(message) => Err("invalid "@ + name + ": "@ + message),
        }
    }
}

/// What is wrong with the choice of an embedder, if anything is: the part of the
/// provider has to be there, and its texts must not be blank.
pub open spec fn embedder_fault(config: EmbedderView) -> Option<Seq<char>> {
    if config.provider == "fastembed"@ {
        match config.fastembed {
            None => Some("embedder.fastembed is required when provider is fastembed"@),
            Some(own) => if blank(own.model_path) {
                Some("embedder.fastembed.model_path is required"@)
            } else {
                None
            },
        }
    } else if config.provider == "ollama"@ {
        match config.ollama {
            None => Some("embedder.ollama is required when provider is ollama"@),
            Some(own) => if blank(own.base_url) || blank(own.model) {
                Some("embedder.ollama.base_url and embedder.ollama.model are required"@)
            } else {
                None
            },
        }
    } else if config.provider == "openai"@ {
        match config.openai {
            None => Some("embedder.openai is required when provider is openai"@),
            Some(own) => if blank(own.api_key_env) || blank(own.model) {
                Some("embedder.openai.api_key_env and embedder.openai.model are required"@)
            } else {
                None
            },
        }
    } else {
        Some("unknown embedder provider: "@ + config.provider)
    }
}

/// How many embedding jobs run at once: one where nothing is said.
pub open spec fn concurrency_of(value: Option<JsonView>) -> Result<int, Seq<char>> {
    match value {
        Some(value) => usize_of(value, "embedder.concurrency"@),
        None => Ok(1),
    }
}

/// The choice of an embedder that a value stands for.
pub open spec fn embedder_of(value: JsonView, decoded: DecodedView) -> Result<
    EmbedderView,
    Seq<char>,
> {
    if !(value is Object) {
        Err("embedder must be an object"@)
    } else if as_text(field(value, "provider"@)) is None {
        Err("embedder.provider is required"@)
    } else {
        match (
            concurrency_of(field(value, "concurrency"@)),
            section(
                field(value, "fastembed"@) is Some,
                decoded.fastembed,
                "embedder.fastembed"@,
            ),
            section(field(value, "ollama"@) is Some, decoded.ollama, "embedder.ollama"@),
            section(field(value, "openai"@) is Some, decoded.openai, "embedder.openai"@),
        ) {
            (Err(message), _, _, _) => Err(message),
            (_, Err(message), _, _) => Err(message),
            (_, _, Err(message), _) => Err(message),
            (_, _, _, Err(message)) => Err(message),
            (Ok(concurrency), Ok(fastembed), Ok(ollama), Ok(openai)) => {
                let config = EmbedderView {
                    provider: as_text(field(value, "provider"@))->0,
                    concurrency,
                    fastembed,
                    ollama,
                    openai,
                };
                match embedder_fault(config) {
                    Some(message) => Err(message),
                    None => Ok(config),
                }
            },
        }
    }
}

/// The message for a part that could not be read.
fn invalid_part(name: &str, message: &str) -> (out: String)
    ensures
        out@ == "invalid "@ + name@ + ": "@ + message@,
{
    let mut out = concat("invalid ", name);
    out.push_str(": ");
    out.push_str(message);
    out
}

/// What is wrong with the choice of an embedder, if anything is.
fn find_embedder_fault(config: &EmbedderConfig) -> (fault: Option<String>)
    ensures
        text_view(fault) == embedder_fault(config@),
{
    if same_text(config.provider.as_str(), "fastembed") {
        match &config.fastembed {
            None => Some("embedder.fastembed is required when provider is fastembed".to_owned()),
            Some(own) => if is_blank(own.model_path.as_str()) {
                Some("embedder.fastembed.model_path is required".to_owned())
            } else {
                None
            },
        }
    } else if same_text(config.provider.as_str(), "ollama") {
        match &config.ollama {
            None => Some("embedder.ollama is required when provider is ollama".to_owned()),
            Some(own) => if is_blank(own.base_url.as_str()) || is_blank(own.model.as_str()) {
                Some("embedder.ollama.base_url and embedder.ollama.model are required".to_owned())
            } else {
                None
            },
        }
    } else if same_text(config.provider.as_str(), "openai") {
        match &config.openai {
            None => Some("embedder.openai is required when provider is openai".to_owned()),
            Some(own) => if is_blank(own.api_key_env.as_str()) || is_blank(own.model.as_str()) {
                Some(
                    "embedder.openai.api_key_env and embedder.openai.model are required".to_owned(),
                )
            } else {
                None
            },
        }
    } else {
        Some(concat("unknown embedder provider: ", config.provider.as_str()))
    }
}

/// Reads the choice of an embedder.
pub fn parse_embedder_config(value: &Json, decoded: &Decoded) -> (config: Result<
    EmbedderConfig,
    String,
>)
    ensures
        result_view(config) == embedder_of(value@, decoded@),
{
    match value {
        Json::Object(_) => {},
        _ => {
            return Err("embedder must be an object".to_owned());
        },
    }
    let provider = match crate::json::get_text(value, "provider") {
        Some(provider) => provider,
        None => {
            return Err("embedder.provider is required".to_owned());
        },
    };
    let concurrency: usize = match get(value, "concurrency") {
        Some(number) => match parse_usize_value(number, "embedder.concurrency") {
            Ok(number) => number,
            Err(message) => {
                return Err(message);
            },
        },
        None => 1,
    };
    let fastembed = match get(value, "fastembed") {
        None => None,
        Some(_) => match &decoded.fastembed {
            Ok(own) => Some(copy_fastembed(own)),
            Err(message) => {
                return Err(invalid_part("embedder.fastembed", message.as_str()));
            },
        },
    };
    let ollama = match get(value, "ollama") {
        None => None,
        Some(_) => match &decoded.ollama {
            Ok(own) => Some(copy_ollama(own)),
            Err(message) => {
                return Err(invalid_part("embedder.ollama", message.as_str()));
            },
        },
    };
    let openai = match get(value, "openai") {
        None => None,
        Some(_) => match &decoded.openai {
            Ok(own) => Some(copy_openai(own)),
            Err(message) => {
                return Err(invalid_part("embedder.openai", message.as_str()));
            },
        },
    };
    let config = EmbedderConfig { provider, concurrency, fastembed, ollama, openai };
    match find_embedder_fault(&config) {
        Some(message) => Err(message),
        None => Ok(config),
    }
}

// ---------------------------------------------------------------------------
// Changes by a client
// ---------------------------------------------------------------------------

/// The configuration with the roots that a client asks for. Without any root,
/// no files are indexed.
pub open spec fn with_roots(
    config: ConfigView,
    inputs: Seq<RootInputView>,
    world: SurroundingsView,
) -> Result<ConfigView, Seq<char>> {
    if inputs.len() == 0 {
        Ok(
            ConfigView {
                roots: Seq::empty(),
                default_root: cwd_root(world).path,
                default_root_canon: cwd_root(world).path_canon,
                ..config
            },
        )
    } else {
        match asked_roots(inputs, world) {
            Err(message) => Err(message),
            Ok(asked) => match final_roots(asked) {
                Err(message) => Err(message),
                Ok(roots) => Ok(
                    ConfigView {
                        roots: roots.0,
                        default_root: roots.1,
                        default_root_canon: roots.2,
                        ..config
                    },
                ),
            },
        }
    }
}

/// The configuration with the base directory for its data: the directories for
/// language packs and for the store lie in it, unless they are given.
pub open spec fn with_data_root(config: ConfigView, value: JsonView, all: JsonView) -> Result<
    ConfigView,
    Seq<char>,
> {
    match text_of(value, "data_root"@) {
        Err(message) => Err(message),
        Ok(base) => Ok(
            ConfigView {
                language_pack_root: if field(all, "language_pack_root"@) is Some {
                    config.language_pack_root
                } else {
                    joined_path(base, "languages"@)
                },
                lancedb_path: if gives_store(all) {
                    config.lancedb_path
                } else {
                    joined_path(base, "lancedb"@)
                },
                ..config
            },
        ),
    }
}

/// The limit in tokens that a limit in characters stands for: as many tokens of
/// four characters as it holds, and at least one; the limit zero is none.
pub open spec fn tokens_within(chars: int) -> int {
    if 0 < chars < 4 {
        1
    } else {
        chars / 4
    }
}

/// The configuration with a limit for chunks in characters. A limit in tokens
/// counts where both are given.
pub open spec fn with_max_chars(config: ConfigView, value: JsonView, all: JsonView) -> Result<
    ConfigView,
    Seq<char>,
> {
    match usize_of(value, "chunk_max_chars"@) {
        Err(message) => Err(message),
        Ok(chars) => if field(all, "chunk_max_tokens"@) is Some {
            Ok(config)
        } else {
            Ok(ConfigView { chunk_max_tokens: tokens_within(chars), ..config })
        },
    }
}

/// Whether a configuration gives the directory of the store.
pub open spec fn gives_store(all: JsonView) -> bool {
    match field(all, "lancedb"@) {
        Some(value) => field(value, "path"@) is Some,
        None => false,
    }
}

/// The configuration with the directory of the store, if one is given.
pub open spec fn with_store(config: ConfigView, value: JsonView) -> Result<ConfigView, Seq<char>> {
    if !(value is Object) {
        Err("lancedb must be an object"@)
    } else {
        match field(value, "path"@) {
            None => Ok(config),
            Some(path) => match text_of(path, "lancedb.path"@) {
                Err(message) => Err(message),
                Ok(text) => Ok(ConfigView { lancedb_path: text, ..config }),
            },
        }
    }
}

/// The configuration with the setting whether parsers may be downloaded.
pub open spec fn with_download(config: ConfigView, value: JsonView) -> Result<
    ConfigView,
    Seq<char>,
> {
    match value {
        JsonView::Null => Ok(config),
        JsonView::Bool(flag) => Ok(ConfigView { language_download: flag, ..config }),
        _ => Err("language_download must be a boolean"@),
    }
}

/// The configuration with the place of the log.
pub open spec fn with_log_path(config: ConfigView, value: JsonView) -> Result<
    ConfigView,
    Seq<char>,
> {
    if value is Null {
        Ok(config)
    } else {
        match text_of(value, "log_path"@) {
            Err(message) => Err(message),
            Ok(text) => Ok(
                ConfigView {
                    log_path: if blank(text) {
                        None
                    } else {
                        Some(text)
                    },
                    ..config
                },
            ),
        }
    }
}

/// The configuration with the name of the instance.
pub open spec fn with_context(config: ConfigView, value: JsonView) -> Result<
    ConfigView,
    Seq<char>,
> {
    match text_of(value, "context"@) {
        Err(message) => Err(message),
        Ok(text) => if blank(text) {
            Err("context must not be empty"@)
        } else {
            Ok(ConfigView { context: text, ..config })
        },
    }
}

/// The configuration after one setting.
pub open spec fn changed(
    config: ConfigView,
    key: Seq<char>,
    value: JsonView,
    all: JsonView,
    decoded: DecodedView,
    world: SurroundingsView,
) -> Result<ConfigView, Seq<char>> {
    if key == "roots"@ {
        match decoded.roots {
            Err(message) => Err("invalid roots: "@ + message),
            Ok(inputs) => with_roots(config, inputs, world),
        }
    } else if key == "chunk_max_chars"@ {
        with_max_chars(config, value, all)
    } else if key == "chunk_max_tokens"@ {
        match usize_of(value, key) {
            Err(message) => Err(message),
            Ok(number) => Ok(ConfigView { chunk_max_tokens: number, ..config }),
        }
    } else if key == "chunk_overlap_tokens"@ {
        match usize_of(value, key) {
            Err(message) => Err(message),
            Ok(number) => Ok(ConfigView { chunk_overlap_tokens: number, ..config }),
        }
    } else if key == "watch_debounce_ms"@ {
        match u64_of(value, key) {
            Err(message) => Err(message),
            Ok(number) => Ok(ConfigView { watch_debounce_ms: number, ..config }),
        }
    } else if key == "data_root"@ {
        with_data_root(config, value, all)
    } else if key == "language_pack_root"@ {
        match text_of(value, key) {
            Err(message) => Err(message),
            Ok(text) => Ok(ConfigView { language_pack_root: text, ..config }),
        }
    } else if key == "languages"@ {
        match list_of(value, key) {
            Err(message) => Err(message),
            Ok(list) => Ok(ConfigView { languages: Some(list), ..config }),
        }
    } else if key == "language_download"@ {
        with_download(config, value)
    } else if key == "log_path"@ {
        with_log_path(config, value)
    } else if key == "context"@ {
        with_context(config, value)
    } else if key == "lancedb"@ {
        with_store(config, value)
    } else if key == "embedder"@ {
        match embedder_of(value, decoded) {
            Err(message) => Err(message),
            Ok(embedder) => Ok(ConfigView { embedder, ..config }),
        }
    } else {
        Err("unknown config key: "@ + key)
    }
}

/// The configuration after all settings, one after the other; the first that
/// cannot be made ends it.
pub open spec fn all_changed(
    config: ConfigView,
    settings: Seq<crate::json::EntryView>,
    all: JsonView,
    decoded: DecodedView,
    world: SurroundingsView,
) -> Result<ConfigView, Seq<char>>
    decreases settings.len(),
{
    if settings.len() == 0 {
        Ok(config)
    } else {
        match changed(config, settings[0].key, settings[0].value, all, decoded, world) {
            Err(message) => Err(message),
            Ok(next) => all_changed(next, settings.drop_first(), all, decoded, world),
        }
    }
}

/// The configuration that a client's settings make of another one.
pub open spec fn overridden(
    base: ConfigView,
    value: JsonView,
    decoded: DecodedView,
    world: SurroundingsView,
) -> Result<ConfigView, Seq<char>> {
    match value {
        JsonView::Object(settings) => all_changed(base, settings, value, decoded, world),
        _ => Err("config must be an object"@),
    }
}

/// Applies the roots that a client asks for.
fn change_roots(config: Config, inputs: &Vec<RootInput>, world: &Surroundings) -> (out: Result<
    Config,
    String,
>)
    ensures
        result_view(out) == with_roots(config@, views(inputs@), world@),
{
    if inputs.len() == 0 {
        let root = root_from_cwd(world);
        let none: Vec<RootConfig> = Vec::new();
        assert(views(none@) =~= Seq::<RootView>::empty());
        return Ok(
            Config {
                roots: none,
                default_root: root.path,
                default_root_canon: root.path_canon,
                ..config
            },
        );
    }
    match build_root_configs(inputs, world) {
        Err(message) => Err(message),
        Ok(asked) => match finalize_roots(asked) {
            Err(message) => Err(message),
            Ok(roots) => Ok(
                Config {
                    roots: roots.0,
                    default_root: roots.1,
                    default_root_canon: roots.2,
                    ..config
                },
            ),
        },
    }
}

/// Applies the limit for chunks in characters.
fn change_max_chars(config: Config, value: &Json, all: &Json) -> (out: Result<Config, String>)
    ensures
        result_view(out) == with_max_chars(config@, value@, all@),
{
    match parse_usize_value(value, "chunk_max_chars") {
        Err(message) => Err(message),
        Ok(chars) => {
            let mut next = config;
            if get(all, "chunk_max_tokens").is_none() {
                next.chunk_max_tokens = if 0 < chars && chars < 4 {
                    1
                } else {
                    chars / 4
                };
            }
            Ok(next)
        },
    }
}

/// Whether the settings give the directory of the store.
fn settings_give_store(all: &Json) -> (given: bool)
    ensures
        given == gives_store(all@),
{
    match get(all, "lancedb") {
        Some(value) => get(value, "path").is_some(),
        None => false,
    }
}

/// Applies the base directory for data.
fn change_data_root(config: Config, value: &Json, all: &Json) -> (out: Result<Config, String>)
    ensures
        result_view(out) == with_data_root(config@, value@, all@),
{
    match parse_text_value(value, "data_root") {
        Err(message) => Err(message),
        Ok(base) => {
            let mut next = config;
            if get(all, "language_pack_root").is_none() {
                next.language_pack_root = join_path(base.as_str(), "languages");
            }
            if !settings_give_store(all) {
                next.lancedb_path = join_path(base.as_str(), "lancedb");
            }
            Ok(next)
        },
    }
}

/// Applies the directory of the store.
fn change_store(config: Config, value: &Json) -> (out: Result<Config, String>)
    ensures
        result_view(out) == with_store(config@, value@),
{
    match value {
        Json::Object(_) => {},
        _ => {
            return Err("lancedb must be an object".to_owned());
        },
    }
    match get(value, "path") {
        None => Ok(config),
        Some(path) => match parse_text_value(path, "lancedb.path") {
            Err(message) => Err(message),
            Ok(text) => Ok(Config { lancedb_path: text, ..config }),
        },
    }
}

/// Applies the place of the log.
fn change_log_path(config: Config, value: &Json) -> (out: Result<Config, String>)
    ensures
        result_view(out) == with_log_path(config@, value@),
{
    match value {
        Json::Null => {
            return Ok(config);
        },
        _ => {},
    }
    match parse_text_value(value, "log_path") {
        Err(message) => Err(message),
        Ok(text) => {
            let place = if is_blank(text.as_str()) {
                None
            } else {
                Some(text)
            };
            Ok(Config { log_path: place, ..config })
        },
    }
}

/// Applies the name of the instance.
fn change_context(config: Config, value: &Json) -> (out: Result<Config, String>)
    ensures
        result_view(out) == with_context(config@, value@),
{
    match parse_text_value(value, "context") {
        Err(message) => Err(message),
        Ok(text) => if is_blank(text.as_str()) {
            Err("context must not be empty".to_owned())
        } else {
            Ok(Config { context: text, ..config })
        },
    }
}

/// Applies one setting.
fn change(
    config: Config,
    key: &str,
    value: &Json,
    all: &Json,
    decoded: &Decoded,
    world: &Surroundings,
) -> (out: Result<Config, String>)
    ensures
        result_view(out) == changed(config@, key@, value@, all@, decoded@, world@),
{
    if same_text(key, "roots") {
        match &decoded.roots {
            Err(message) => Err(concat("invalid roots: ", message.as_str())),
            Ok(inputs) => change_roots(config, inputs, world),
        }
    } else if same_text(key, "chunk_max_chars") {
        change_max_chars(config, value, all)
    } else if same_text(key, "chunk_max_tokens") {
        match parse_usize_value(value, key) {
            Err(message) => Err(message),
            Ok(number) => Ok(Config { chunk_max_tokens: number, ..config }),
        }
    } else if same_text(key, "chunk_overlap_tokens") {
        match parse_usize_value(value, key) {
            Err(message) => Err(message),
            Ok(number) => Ok(Config { chunk_overlap_tokens: number, ..config }),
        }
    } else if same_text(key, "watch_debounce_ms") {
        match parse_u64_value(value, key) {
            Err(message) => Err(message),
            Ok(number) => Ok(Config { watch_debounce_ms: number, ..config }),
        }
    } else if same_text(key, "data_root") {
        change_data_root(config, value, all)
    } else if same_text(key, "language_pack_root") {
        match parse_text_value(value, key) {
            Err(message) => Err(message),
            Ok(text) => Ok(Config { language_pack_root: text, ..config }),
        }
    } else if same_text(key, "languages") {
        match parse_string_list(value, key) {
            Err(message) => Err(message),
            Ok(list) => Ok(Config { languages: Some(list), ..config }),
        }
    } else if same_text(key, "language_download") {
        match value {
            Json::Null => Ok(config),
            Json::Bool(flag) => Ok(Config { language_download: *flag, ..config }),
            _ => Err("language_download must be a boolean".to_owned()),
        }
    } else if same_text(key, "log_path") {
        change_log_path(config, value)
    } else if same_text(key, "context") {
        change_context(config, value)
    } else if same_text(key, "lancedb") {
        change_store(config, value)
    } else if same_text(key, "embedder") {
        match parse_embedder_config(value, decoded) {
            Err(message) => Err(message),
            Ok(embedder) => Ok(Config { embedder, ..config }),
        }
    } else {
        Err(concat("unknown config key: ", key))
    }
}

/// Applies the settings of a client, which have to be an object.
pub fn apply_config_override(
    base: Config,
    value: &Json,
    decoded: &Decoded,
    world: &Surroundings,
) -> (out: Result<Config, String>)
    ensures
        result_view(out) == overridden(base@, value@, decoded@, world@),
{
    match value {
        Json::Object(entries) => {
            let ghost settings = entries_view(entries@);
            proof {
                lemma_object_view(*entries);
            }
            let mut next = base;
            let mut i: usize = 0;
            assert(settings.skip(0) =~= settings);
            while i < entries.len()
                invariant
                    i <= entries@.len(),
                    settings == entries_view(entries@),
                    overridden(base@, value@, decoded@, world@) == all_changed(
                        next@,
                        settings.skip(i as int),
                        value@,
                        decoded@,
                        world@,
                    ),
                decreases entries@.len() - i,
            {
                proof {
                    assert(settings.skip(i as int)[0] == settings[i as int]);
                    assert(settings.skip(i as int).drop_first() =~= settings.skip(i + 1));
                }
                match change(
                    next,
                    entries[i].key.as_str(),
                    &entries[i].value,
                    value,
                    decoded,
                    world,
                ) {
                    Err(message) => {
                        return Err(message);
                    },
                    Ok(changed) => {
                        next = changed;
                    },
                }
                i = i + 1;
            }
            Ok(next)
        },
        _ => Err("config must be an object".to_owned()),
    }
}

/// The settings in the parameters of an `initialize` request, if there are any.
pub open spec fn sent_settings(params: JsonView) -> Option<JsonView> {
    match field(params, "capabilities"@) {
        None => None,
        Some(capabilities) => match field(capabilities, "experimental"@) {
            None => None,
            Some(experimental) => field(experimental, "configuration"@),
        },
    }
}

/// Finds the settings in the parameters of an `initialize` request.
pub fn find_settings(params: &Json) -> (found: Option<&Json>)
    ensures
        match found {
            Some(found) => sent_settings(params@) == Some(found@),
            None => sent_settings(params@) is None,
        },
{
    match get(params, "capabilities") {
        None => None,
        Some(capabilities) => match get(capabilities, "experimental") {
            None => None,
            Some(experimental) => get(experimental, "configuration"),
        },
    }
}

/// Applies the settings in an `initialize` request. The configuration stays as
/// it is where there are none, and where they cannot be applied.
pub fn apply_initialize_config(
    config: &mut Config,
    req: &crate::protocol::Request,
    decoded: &Decoded,
    world: &Surroundings,
) -> (done: Result<(), String>)
    ensures
        match sent_settings(req.params@) {
            None => done is Ok && final(config)@ == old(config)@,
            Some(value) => match overridden(old(config)@, value, decoded@, world@) {
                Ok(next) => done is Ok && final(config)@ == next,
                Err(message) => final(config)@ == old(config)@ && match done {
                    Ok(_) => false,
                    Err(told) => told@ == message,
                },
            },
        },
{
    match find_settings(&req.params) {
        None => Ok(()),
        Some(value) => {
            let base = copy_config(config);
            match apply_config_override(base, value, decoded, world) {
                Ok(next) => {
                    *config = next;
                    Ok(())
                },
                Err(message) => Err(message),
            }
        },
    }
}

// ---------------------------------------------------------------------------
// Defaults
// ---------------------------------------------------------------------------

/// The configuration before a client changes it.
pub open spec fn initial_config(world: SurroundingsView) -> ConfigView {
    ConfigView {
        roots: Seq::empty().push(cwd_root(world)),
        default_root: cwd_root(world).path,
        default_root_canon: cwd_root(world).path_canon,
        chunk_max_tokens: 300,
        chunk_overlap_tokens: 50,
        watch_debounce_ms: 200,
        language_pack_root: ".mcp-search/languages"@,
        languages: None,
        language_download: true,
        context: "default"@,
        embedder: EmbedderView {
            provider: "fastembed"@,
            concurrency: 1,
            fastembed: Some(
                FastembedView { model: Some("bge-small-en-v1.5"@), model_path: "./models/bge"@ },
            ),
            ollama: None,
            openai: None,
        },
        lancedb_path: ".mcp-search/lancedb"@,
        log_path: None,
    }
}

/// The configuration before a client changes it: the working directory is the
/// only root.
pub fn default_config(world: &Surroundings) -> (config: Config)
    ensures
        config@ == initial_config(world@),
{
    let root = root_from_cwd(world);
    let path = root.path.clone();
    let canonical = root.path_canon.clone();
    let mut roots: Vec<RootConfig> = Vec::new();
    roots.push(root);
    assert(views(roots@) =~= Seq::empty().push(root@));
    Config {
        roots,
        default_root: path,
        default_root_canon: canonical,
        chunk_max_tokens: 300,
        chunk_overlap_tokens: 50,
        watch_debounce_ms: 200,
        language_pack_root: ".mcp-search/languages".to_owned(),
        languages: None,
        language_download: true,
        context: "default".to_owned(),
        embedder: EmbedderConfig {
            provider: "fastembed".to_owned(),
            concurrency: 1,
            fastembed: Some(
                FastembedConfig {
                    model: Some("bge-small-en-v1.5".to_owned()),
                    model_path: "./models/bge".to_owned(),
                },
            ),
            ollama: None,
            openai: None,
        },
        lancedb_path: ".mcp-search/lancedb".to_owned(),
        log_path: None,
    }
}

} // verus!
