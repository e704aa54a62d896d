//! Language packs: which languages are known, what their packs hold, and what is
//! done to bring them up to date.
use crate::config::texts_view;
use crate::ids::{new_chunk_id, random_id};
use crate::json::{as_text, field, get, get_text, items_view, lemma_list_view, Json, JsonView};
use crate::paths::{
    join_path, joined_path, parent, path_parent, path_with_extension, with_extension,
};
use crate::sorting::views;
use crate::text::{
    clone_texts, concat, contains_lowercase, equal_ignoring_case, join_texts, joined,
    lists_lowercase, lowercase, replace_part, replaced, same_ignoring_case, same_text, texts,
};
use crate::types::text_view;
use vstd::prelude::*;

verus! {

// ---------------------------------------------------------------------------
// Types
// ---------------------------------------------------------------------------

/// A language pack that can be loaded.
#[derive(Clone, Debug)]
pub struct LanguagePack {
    pub config: LanguageConfig,
    pub parser_path: String,
    pub structural_query_path: String,
}

/// What a language pack says of its language.
#[derive(Clone, Debug)]
pub struct LanguageConfig {
    pub name: String,
    pub extensions: Vec<String>,
    pub parser: String,
    pub custom: Option<bool>,
    pub queries: LanguageQueries,
}

/// The files of the queries of a language.
#[derive(Clone, Debug)]
pub struct LanguageQueries {
    pub structural: String,
}

/// A language that is known without a pack.
#[derive(Clone, Debug)]
pub struct KnownLanguage {
    pub name: String,
    pub repo: String,
    pub extensions: Vec<String>,
    pub query: String,
}

/// A known language as a mathematical value.
#[verifier::ext_equal]
pub struct KnownView {
    pub name: Seq<char>,
    pub repo: Seq<char>,
    pub extensions: Seq<Seq<char>>,
    pub query: Seq<char>,
}

impl View for KnownLanguage {
    type V = KnownView;

    open spec fn view(&self) -> KnownView {
        KnownView {
            name: self.name@,
            repo: self.repo@,
            extensions: texts(self.extensions@),
            query: self.query@,
        }
    }
}

impl KnownView {
    /// A language with one extension more.
    pub open spec fn ext(self, extension: Seq<char>) -> KnownView {
        KnownView { extensions: self.extensions.push(extension), ..self }
    }
}

impl KnownLanguage {
    /// A language without extensions.
    pub fn new(name: &str, repo: &str, query: &str) -> (language: KnownLanguage)
        ensures
            language@ == known(name@, repo@, query@),
    {
        let extensions: Vec<String> = Vec::new();
        assert(texts(extensions@) =~= Seq::<Seq<char>>::empty());
        KnownLanguage {
            name: name.to_owned(),
            repo: repo.to_owned(),
            extensions,
            query: query.to_owned(),
        }
    }

    /// The language with one extension more.
    pub fn ext(self, extension: &str) -> (language: KnownLanguage)
        ensures
            language@ == self@.ext(extension@),
    {
        let mut extensions = self.extensions;
        let ghost before = texts(extensions@);
        extensions.push(extension.to_owned());
        assert(texts(extensions@) =~= before.push(extension@));
        KnownLanguage { name: self.name, repo: self.repo, extensions, query: self.query }
    }
}

// ---------------------------------------------------------------------------
// Known languages
// ---------------------------------------------------------------------------

/// A known language without extensions.
pub open spec fn known(name: Seq<char>, repo: Seq<char>, query: Seq<char>) -> KnownView {
    KnownView { name, repo, extensions: Seq::empty(), query }
}

/// The languages that are known without a pack.
pub open spec fn known_table() -> Seq<KnownView> {
    Seq::empty()
        .push(
            known(
                "css"@,
                "neatify-tech/tree-sitter-css"@,
                "(rule_set) @structural\n(at_rule) @structural\n"@,
            ).ext("css"@),
        )
        .push(
            known(
                "html"@,
                "neatify-tech/tree-sitter-html"@,
                "(element) @structural\n(script_element) @structural\n(style_element) @structural\n"@,
            ).ext("html"@).ext("htm"@),
        )
        .push(
            known(
                "java"@,
                "neatify-tech/tree-sitter-java"@,
                "(class_declaration) @structural\n(interface_declaration) @structural\n(enum_declaration) @structural\n(record_declaration) @structural\n(method_declaration) @structural\n(constructor_declaration) @structural\n"@,
            ).ext("java"@),
        )
        .push(
            known(
                "json"@,
                "neatify-tech/tree-sitter-json"@,
                "(object) @structural\n(array) @structural\n(pair) @structural\n"@,
            ).ext("json"@),
        )
        .push(
            known(
                "markdown"@,
                "neatify-tech/tree-sitter-markdown"@,
                "(section) @structural\n(atx_heading) @structural\n(setext_heading) @structural\n(fenced_code_block) @structural\n(list) @structural\n(block_quote) @structural\n"@,
            ).ext("md"@).ext("markdown"@),
        )
        .push(
            known(
                "rhai"@,
                "neatify-tech/tree-sitter-rhai"@,
                "(DefFn) @structural\n(DefConst) @structural\n(DefLet) @structural\n"@,
            ).ext("rhai"@),
        )
        .push(
            known(
                "rust"@,
                "neatify-tech/tree-sitter-rust"@,
                "(function_item) @structural\n(struct_item) @structural\n(enum_item) @structural\n(impl_item) @structural\n(trait_item) @structural\n(mod_item) @structural\n(type_item) @structural\n(const_item) @structural\n(static_item) @structural\n"@,
            ).ext("rs"@),
        )
        .push(
            known(
                "sql"@,
                "neatify-tech/tree-sitter-sql"@,
                "(select_statement) @structural\n(with_clause) @structural\n(cte) @structural\n"@,
            ).ext("sql"@),
        )
        .push(
            known(
                "typescript"@,
                "neatify-tech/tree-sitter-typescript"@,
                "(function_declaration) @structural\n(class_declaration) @structural\n(interface_declaration) @structural\n(type_alias_declaration) @structural\n(enum_declaration) @structural\n(method_definition) @structural\n"@,
            ).ext("ts"@).ext("tsx"@),
        )
        .push(
            known(
                "vue"@,
                "neatify-tech/tree-sitter-vue"@,
                "(element) @structural\n(template_element) @structural\n(script_element) @structural\n(style_element) @structural\n"@,
            ).ext("vue"@),
        )
        .push(
            known(
                "xml"@,
                "neatify-tech/tree-sitter-xml"@,
                "(element) @structural\n"@,
            ).ext("xml"@).ext("xsd"@).ext("xsl"@).ext("xslt"@),
        )
}

/// Adds a language.
fn add_known(all: &mut Vec<KnownLanguage>, language: KnownLanguage)
    ensures
        views(final(all)@) == views(old(all)@).push(language@),
{
    let ghost before = views(all@);
    all.push(language);
    assert(views(all@) =~= before.push(language@));
}

/// The languages that are known without a pack.
pub fn known_languages() -> (all: Vec<KnownLanguage>)
    ensures
        views(all@) == known_table(),
{
    let mut all: Vec<KnownLanguage> = Vec::new();
    assert(views(all@) =~= Seq::<KnownView>::empty());
    add_known(
        &mut all,
        KnownLanguage::new(
            "css",
            "neatify-tech/tree-sitter-css",
            "(rule_set) @structural\n(at_rule) @structural\n",
        ).ext("css"),
    );
    add_known(
        &mut all,
        KnownLanguage::new(
            "html",
            "neatify-tech/tree-sitter-html",
            "(element) @structural\n(script_element) @structural\n(style_element) @structural\n",
        ).ext("html").ext("htm"),
    );
    add_known(
        &mut all,
        KnownLanguage::new(
            "java",
            "neatify-tech/tree-sitter-java",
            "(class_declaration) @structural\n(interface_declaration) @structural\n(enum_declaration) @structural\n(record_declaration) @structural\n(method_declaration) @structural\n(constructor_declaration) @structural\n",
        ).ext("java"),
    );
    add_known(
        &mut all,
        KnownLanguage::new(
            "json",
            "neatify-tech/tree-sitter-json",
            "(object) @structural\n(array) @structural\n(pair) @structural\n",
        ).ext("json"),
    );
    add_known(
        &mut all,
        KnownLanguage::new(
            "markdown",
            "neatify-tech/tree-sitter-markdown",
            "(section) @structural\n(atx_heading) @structural\n(setext_heading) @structural\n(fenced_code_block) @structural\n(list) @structural\n(block_quote) @structural\n",
        ).ext("md").ext("markdown"),
    );
    add_known(
        &mut all,
        KnownLanguage::new(
            "rhai",
            "neatify-tech/tree-sitter-rhai",
            "(DefFn) @structural\n(DefConst) @structural\n(DefLet) @structural\n",
        ).ext("rhai"),
    );
    add_known(
        &mut all,
        KnownLanguage::new(
            "rust",
            "neatify-tech/tree-sitter-rust",
            "(function_item) @structural\n(struct_item) @structural\n(enum_item) @structural\n(impl_item) @structural\n(trait_item) @structural\n(mod_item) @structural\n(type_item) @structural\n(const_item) @structural\n(static_item) @structural\n",
        ).ext("rs"),
    );
    add_known(
        &mut all,
        KnownLanguage::new(
            "sql",
            "neatify-tech/tree-sitter-sql",
            "(select_statement) @structural\n(with_clause) @structural\n(cte) @structural\n",
        ).ext("sql"),
    );
    add_known(
        &mut all,
        KnownLanguage::new(
            "typescript",
            "neatify-tech/tree-sitter-typescript",
            "(function_declaration) @structural\n(class_declaration) @structural\n(interface_declaration) @structural\n(type_alias_declaration) @structural\n(enum_declaration) @structural\n(method_definition) @structural\n",
        ).ext("ts").ext("tsx"),
    );
    add_known(
        &mut all,
        KnownLanguage::new(
            "vue",
            "neatify-tech/tree-sitter-vue",
            "(element) @structural\n(template_element) @structural\n(script_element) @structural\n(style_element) @structural\n",
        ).ext("vue"),
    );
    add_known(
        &mut all,
        KnownLanguage::new(
            "xml",
            "neatify-tech/tree-sitter-xml",
            "(element) @structural\n",
        ).ext("xml").ext("xsd").ext("xsl").ext("xslt"),
    );
    all
}

/// Whether a known language is enabled: all are where no names are given.
pub open spec fn enabled(name: Seq<char>, names: Option<Seq<Seq<char>>>) -> bool {
    match names {
        None => true,
        Some(names) => names.len() == 0 || exists|i: int|
            0 <= i < names.len() && same_ignoring_case(name, #[trigger] names[i]),
    }
}

/// The first of some languages that are enabled.
pub open spec fn enabled_languages(
    languages: Seq<KnownView>,
    names: Option<Seq<Seq<char>>>,
) -> Seq<KnownView>
    decreases languages.len(),
{
    if languages.len() == 0 {
        languages
    } else if enabled(languages.last().name, names) {
        enabled_languages(languages.drop_last(), names).push(languages.last())
    } else {
        enabled_languages(languages.drop_last(), names)
    }
}

/// Whether a known language is enabled.
pub fn resolve_enabled(name: &str, names: &Option<Vec<String>>) -> (is: bool)
    ensures
        is == enabled(name@, texts_view(*names)),
{
    match names {
        None => true,
        Some(list) => {
            let ghost all = texts(list@);
            if list.len() == 0 {
                return true;
            }
            let mut i: usize = 0;
            while i < list.len()
                invariant
                    i <= list@.len(),
                    all == texts(list@),
                    texts_view(*names) == Some(all),
                    forall|k: int| 0 <= k < i ==> !same_ignoring_case(name@, #[trigger] all[k]),
                decreases list@.len() - i,
            {
                assert(all[i as int] == list@[i as int]@);
                if equal_ignoring_case(name, list[i].as_str()) {
                    assert(same_ignoring_case(name@, all[i as int]));
                    return true;
                }
                i = i + 1;
            }
            false
        },
    }
}

// ---------------------------------------------------------------------------
// Names of binaries
// ---------------------------------------------------------------------------

/// How an operating system is called in the name of a binary.
pub open spec fn os_label(os: Seq<char>) -> Seq<char> {
    if os == "macos"@ {
        "darwin"@
    } else {
        os
    }
}

/// The extension of a shared library.
pub open spec fn library_extension(os: Seq<char>) -> Seq<char> {
    if os == "windows"@ {
        ".dll"@
    } else if os == "macos"@ {
        ".dylib"@
    } else {
        ".so"@
    }
}

/// How an operating system is called in the name of a binary.
pub fn os_name(os: &str) -> (label: String)
    ensures
        label@ == os_label(os@),
{
    if same_text(os, "macos") {
        "darwin".to_owned()
    } else {
        os.to_owned()
    }
}

/// The extension of a shared library.
pub fn library_suffix(os: &str) -> (suffix: String)
    ensures
        suffix@ == library_extension(os@),
{
    if same_text(os, "windows") {
        ".dll".to_owned()
    } else if same_text(os, "macos") {
        ".dylib".to_owned()
    } else {
        ".so".to_owned()
    }
}

/// The name of the binary of a language among the files of a release.
pub open spec fn asset_name(language: Seq<char>, os: Seq<char>, arch: Seq<char>) -> Seq<char> {
    "tree-sitter-"@ + language + "-"@ + os_label(os) + "-"@ + arch + library_extension(os)
}

/// The name of the binary of a language among the files of a release.
pub fn expected_asset_name(language: &str, os: &str, arch: &str) -> (name: String)
    ensures
        name@ == asset_name(language@, os@, arch@),
{
    let mut name = concat("tree-sitter-", language);
    name.push_str("-");
    name.push_str(os_name(os).as_str());
    name.push_str("-");
    name.push_str(arch);
    name.push_str(library_suffix(os).as_str());
    name
}

/// The name of a binary, with its placeholders filled in.
pub open spec fn filled_in(template: Seq<char>, os: Seq<char>, arch: Seq<char>) -> Seq<char> {
    replaced(
        replaced(replaced(template, "{os}"@, os_label(os)), "{arch}"@, arch),
        "{ext}"@,
        library_extension(os),
    )
}

/// The path of the binary of a language pack.
pub fn resolve_parser_path(root: &str, template: &str, os: &str, arch: &str) -> (path: String)
    ensures
        path@ == joined_path(root@, filled_in(template@, os@, arch@)),
{
    proof {
        reveal_strlit("{os}");
        reveal_strlit("{arch}");
        reveal_strlit("{ext}");
    }
    let first = replace_part(template, "{os}", os_name(os).as_str());
    let second = replace_part(first.as_str(), "{arch}", arch);
    let third = replace_part(second.as_str(), "{ext}", library_suffix(os).as_str());
    join_path(root, third.as_str())
}

// ---------------------------------------------------------------------------
// Bringing packs up to date
// ---------------------------------------------------------------------------

/// An extension as it is written in a pack.
pub open spec fn quoted_all(list: Seq<Seq<char>>) -> Seq<Seq<char>> {
    Seq::new(list.len(), |i: int| "\""@ + list[i] + "\""@)
}

/// What a new pack says of a known language.
pub open spec fn pack_text(language: KnownView) -> Seq<char> {
    "name = \""@ + language.name + "\"\nextensions = ["@ + joined(
        quoted_all(language.extensions),
        ", "@,
    ) + "]\nparser = \"tree-sitter-"@ + language.name
        + "-{os}-{arch}{ext}\"\ncustom = false\n\n[queries]\nstructural = \"queries.scm\"\n"@
}

/// What a new pack says of a known language.
pub fn language_toml(language: &KnownLanguage) -> (text: String)
    ensures
        text@ == pack_text(language@),
{
    let ghost all = quoted_all(texts(language.extensions@));
    let mut quoted: Vec<String> = Vec::new();
    let mut i: usize = 0;
    assert(texts(quoted@) =~= all.take(0));
    while i < language.extensions.len()
        invariant
            i <= language.extensions@.len(),
            all == quoted_all(texts(language.extensions@)),
            texts(quoted@) == all.take(i as int),
        decreases language.extensions@.len() - i,
    {
        let mut part = concat("\"", language.extensions[i].as_str());
        part.push_str("\"");
        proof {
            assert(texts(quoted@.push(part)) =~= texts(quoted@).push(part@));
            assert(all.take(i + 1) =~= all.take(i as int).push(all[i as int]));
        }
        quoted.push(part);
        i = i + 1;
    }
    assert(all.take(i as int) =~= all);
    let mut text = concat("name = \"", language.name.as_str());
    text.push_str("\"\nextensions = [");
    text.push_str(join_texts(&quoted, ", ").as_str());
    text.push_str("]\nparser = \"tree-sitter-");
    text.push_str(language.name.as_str());
    text.push_str(
        "-{os}-{arch}{ext}\"\ncustom = false\n\n[queries]\nstructural = \"queries.scm\"\n",
    );
    text
}

/// The pack of a known language: where its files lie and what a new one holds.
#[derive(Clone, Debug)]
pub struct SyncPlan {
    pub language: KnownLanguage,
    pub pack_root: String,
    pub config_path: String,
    pub config_text: String,
    pub query_path: String,
    pub allow_download: bool,
}

/// The pack of a known language as a mathematical value.
#[verifier::ext_equal]
pub struct SyncView {
    pub language: KnownView,
    pub pack_root: Seq<char>,
    pub config_path: Seq<char>,
    pub config_text: Seq<char>,
    pub query_path: Seq<char>,
    pub allow_download: bool,
}

impl View for SyncPlan {
    type V = SyncView;

    open spec fn view(&self) -> SyncView {
        SyncView {
            language: self.language@,
            pack_root: self.pack_root@,
            config_path: self.config_path@,
            config_text: self.config_text@,
            query_path: self.query_path@,
            allow_download: self.allow_download,
        }
    }
}

/// The pack of a known language under a root.
pub open spec fn planned_pack(language: KnownView, root: Seq<char>, download: bool) -> SyncView {
    let pack_root = joined_path(root, language.name);
    SyncView {
        language,
        pack_root,
        config_path: joined_path(pack_root, "language.toml"@),
        config_text: pack_text(language),
        query_path: joined_path(pack_root, "queries.scm"@),
        allow_download: download,
    }
}

/// The packs of the known languages that are enabled.
pub open spec fn planned_packs(
    root: Seq<char>,
    names: Option<Seq<Seq<char>>>,
    download: bool,
) -> Seq<SyncView> {
    let languages = enabled_languages(known_table(), names);
    Seq::new(languages.len(), |i: int| planned_pack(languages[i], root, download))
}

/// Tells which packs are brought up to date, in which order. A pack that fails
/// does not stop the others.
pub fn sync_language_packs(
    root: &str,
    names: &Option<Vec<String>>,
    allow_download: bool,
) -> (plans: Vec<SyncPlan>)
    ensures
        views(plans@) == planned_packs(root@, texts_view(*names), allow_download),
{
    let languages = known_languages();
    let ghost all = views(languages@);
    let ghost told = texts_view(*names);
    let mut plans: Vec<SyncPlan> = Vec::new();
    let mut i: usize = 0;
    assert(enabled_languages(all.take(0), told) =~= Seq::<KnownView>::empty());
    while i < languages.len()
        invariant
            i <= languages@.len(),
            all == views(languages@),
            told == texts_view(*names),
            plans@.len() == enabled_languages(all.take(i as int), told).len(),
            forall|k: int|
                0 <= k < plans@.len() ==> (#[trigger] plans@[k])@ == planned_pack(
                    enabled_languages(all.take(i as int), told)[k],
                    root@,
                    allow_download,
                ),
        decreases languages@.len() - i,
    {
        let language = &languages[i];
        proof {
            assert(all.take(i + 1).drop_last() =~= all.take(i as int));
            assert(all[i as int] == language@);
        }
        if resolve_enabled(language.name.as_str(), names) {
            let pack_root = join_path(root, language.name.as_str());
            let plan = SyncPlan {
                language: copy_known(language),
                config_path: join_path(pack_root.as_str(), "language.toml"),
                config_text: language_toml(language),
                query_path: join_path(pack_root.as_str(), "queries.scm"),
                pack_root,
                allow_download,
            };
            plans.push(plan);
        }
        i = i + 1;
    }
    proof {
        assert(all.take(i as int) =~= all);
        assert(views(plans@) =~= planned_packs(root@, told, allow_download));
    }
    plans
}

/// A copy of a known language.
fn copy_known(language: &KnownLanguage) -> (copy: KnownLanguage)
    ensures
        copy@ == language@,
{
    KnownLanguage {
        name: language.name.clone(),
        repo: language.repo.clone(),
        extensions: clone_texts(&language.extensions),
        query: language.query.clone(),
    }
}

/// What is done with the queries of a pack.
#[derive(Clone, Copy, Debug, PartialEq, Eq, Structural)]
pub enum QueryAction {
    Create,
    Overwrite,
    Keep,
}

/// What is done about the binary of a pack.
#[derive(Clone, Copy, Debug, PartialEq, Eq, Structural)]
pub enum ParserAction {
    Ready,
    Download,
    Refuse,
}

/// Missing queries are written; existing ones are overwritten unless the pack
/// has its own.
pub fn query_action(present: bool, custom: Option<bool>) -> (action: QueryAction)
    ensures
        action == if !present {
            QueryAction::Create
        } else if custom == Some(true) {
            QueryAction::Keep
        } else {
            QueryAction::Overwrite
        },
{
    let own = match custom {
        Some(flag) => flag,
        None => false,
    };
    if !present {
        QueryAction::Create
    } else if !own {
        QueryAction::Overwrite
    } else {
        QueryAction::Keep
    }
}

/// A missing binary is downloaded where that is allowed.
pub fn parser_action(present: bool, allow_download: bool) -> (action: ParserAction)
    ensures
        action == if present {
            ParserAction::Ready
        } else if allow_download {
            ParserAction::Download
        } else {
            ParserAction::Refuse
        },
{
    if present {
        ParserAction::Ready
    } else if allow_download {
        ParserAction::Download
    } else {
        ParserAction::Refuse
    }
}

/// Why the description of a language pack could not be had.
#[derive(Debug)]
pub enum ConfigFault {
    Unreadable(String),
    Unparsable(String),
}

/// What is to be done next to bring a pack up to date.
#[derive(Debug)]
pub enum SyncState {
    /// Make the directory of the pack.
    MakeDirectory,
    /// Look whether the pack is described.
    CheckConfig,
    /// Write the description of the pack.
    WriteConfig,
    /// Read the description of the pack.
    ReadConfig,
    /// Look whether the queries are there.
    CheckQuery(LanguageConfig),
    /// Write the queries, over those that are there or anew.
    WriteQuery(LanguageConfig, bool),
    /// Look whether the binary is there.
    CheckParser(String),
    /// Download the binary.
    Download(String),
    /// Nothing.
    Done(Result<(), String>),
}

/// What came of a step.
#[derive(Debug)]
pub enum SyncEvent {
    Finished(Result<(), String>),
    Found(bool),
    Config(Result<LanguageConfig, ConfigFault>),
}

/// What is to be done next, as a mathematical value.
#[verifier::ext_equal]
pub enum SyncStateView {
    MakeDirectory,
    CheckConfig,
    WriteConfig,
    ReadConfig,
    CheckQuery(LanguageConfig),
    WriteQuery(LanguageConfig, bool),
    CheckParser(Seq<char>),
    Download(Seq<char>),
    Done(Result<(), Seq<char>>),
}

impl View for SyncState {
    type V = SyncStateView;

    open spec fn view(&self) -> SyncStateView {
        match *self {
            SyncState::MakeDirectory => SyncStateView::MakeDirectory,
            SyncState::CheckConfig => SyncStateView::CheckConfig,
            SyncState::WriteConfig => SyncStateView::WriteConfig,
            SyncState::ReadConfig => SyncStateView::ReadConfig,
            SyncState::CheckQuery(config) => SyncStateView::CheckQuery(config),
            SyncState::WriteQuery(config, over) => SyncStateView::WriteQuery(config, over),
            SyncState::CheckParser(path) => SyncStateView::CheckParser(path@),
            SyncState::Download(path) => SyncStateView::Download(path@),
            SyncState::Done(Ok(done)) => SyncStateView::Done(Ok(done)),
            SyncState::Done(Err(message)) => SyncStateView::Done(Err(message@)),
        }
    }
}

/// What is told where something cannot be done with a file.
pub open spec fn file_failure(what: Seq<char>, path: Seq<char>, message: Seq<char>) -> Seq<char> {
    "failed to "@ + what + " "@ + path + ": "@ + message
}

/// What is told where something cannot be done with a file.
pub fn describe_failure(what: &str, path: &str, message: &str) -> (out: String)
    ensures
        out@ == file_failure(what@, path@, message@),
{
    let mut out = concat("failed to ", what);
    out.push_str(" ");
    out.push_str(path);
    out.push_str(": ");
    out.push_str(message);
    out
}

/// What follows a step that may fail.
pub open spec fn unless_failed(
    result: Result<(), String>,
    what: Seq<char>,
    path: Seq<char>,
    next: SyncStateView,
) -> SyncStateView {
    match result {
        Ok(_) => next,
        Err(message) => SyncStateView::Done(Err(file_failure(what, path, message@))),
    }
}

/// Where the binary of a pack lies.
pub open spec fn pack_parser(
    plan: SyncView,
    config: LanguageConfig,
    os: Seq<char>,
    arch: Seq<char>,
) -> Seq<char> {
    joined_path(plan.pack_root, filled_in(config.parser@, os, arch))
}

/// What is done after a step. The pack is described first, then its queries are
/// written, unless it keeps its own, and then its binary is looked for. An event
/// that does not answer the step changes nothing.
pub open spec fn next_sync(
    plan: SyncView,
    state: SyncStateView,
    event: SyncEvent,
    os: Seq<char>,
    arch: Seq<char>,
) -> SyncStateView {
    match (state, event) {
        (SyncStateView::MakeDirectory, SyncEvent::Finished(result)) => unless_failed(
            result,
            "create"@,
            plan.pack_root,
            SyncStateView::CheckConfig,
        ),
        (SyncStateView::CheckConfig, SyncEvent::Found(found)) => if found {
            SyncStateView::ReadConfig
        } else {
            SyncStateView::WriteConfig
        },
        (SyncStateView::WriteConfig, SyncEvent::Finished(result)) => unless_failed(
            result,
            "write"@,
            plan.config_path,
            SyncStateView::ReadConfig,
        ),
        (SyncStateView::ReadConfig, SyncEvent::Config(result)) => match result {
            Ok(config) => SyncStateView::CheckQuery(config),
            Err(ConfigFault::Unreadable(message)) => SyncStateView::Done(
                Err(file_failure("read"@, plan.config_path, message@)),
            ),
            Err(ConfigFault::Unparsable(message)) => SyncStateView::Done(
                Err(file_failure("parse"@, plan.config_path, message@)),
            ),
        },
        (SyncStateView::CheckQuery(config), SyncEvent::Found(found)) => if !found {
            SyncStateView::WriteQuery(config, false)
        } else if config.custom == Some(true) {
            SyncStateView::CheckParser(pack_parser(plan, config, os, arch))
        } else {
            SyncStateView::WriteQuery(config, true)
        },
        (SyncStateView::WriteQuery(config, over), SyncEvent::Finished(result)) => unless_failed(
            result,
            if over {
                "overwrite"@
            } else {
                "write"@
            },
            plan.query_path,
            SyncStateView::CheckParser(pack_parser(plan, config, os, arch)),
        ),
        (SyncStateView::CheckParser(path), SyncEvent::Found(found)) => if found {
            SyncStateView::Done(Ok(()))
        } else if plan.allow_download {
            SyncStateView::Download(path)
        } else {
            SyncStateView::Done(Err("parser download disabled"@))
        },
        (SyncStateView::Download(_), SyncEvent::Finished(result)) => match result {
            Ok(_) => SyncStateView::Done(Ok(())),
            Err(message) => SyncStateView::Done(Err(message@)),
        },
        _ => state,
    }
}

/// Tells what is done after a step to bring a pack up to date.
pub fn sync_language(
    plan: &SyncPlan,
    state: SyncState,
    event: SyncEvent,
    os: &str,
    arch: &str,
) -> (next: SyncState)
    ensures
        next@ == next_sync(plan@, state@, event, os@, arch@),
{
    match (state, event) {
        (SyncState::MakeDirectory, SyncEvent::Finished(result)) => match result {
            Ok(_) => SyncState::CheckConfig,
            Err(message) => SyncState::Done(
                Err(describe_failure("create", plan.pack_root.as_str(), message.as_str())),
            ),
        },
        (SyncState::CheckConfig, SyncEvent::Found(found)) => if found {
            SyncState::ReadConfig
        } else {
            SyncState::WriteConfig
        },
        (SyncState::WriteConfig, SyncEvent::Finished(result)) => match result {
            Ok(_) => SyncState::ReadConfig,
            Err(message) => SyncState::Done(
                Err(describe_failure("write", plan.config_path.as_str(), message.as_str())),
            ),
        },
        (SyncState::ReadConfig, SyncEvent::Config(result)) => match result {
            Ok(config) => SyncState::CheckQuery(config),
            Err(ConfigFault::Unreadable(message)) => SyncState::Done(
                Err(describe_failure("read", plan.config_path.as_str(), message.as_str())),
            ),
            Err(ConfigFault::Unparsable(message)) => SyncState::Done(
                Err(describe_failure("parse", plan.config_path.as_str(), message.as_str())),
            ),
        },
        (SyncState::CheckQuery(config), SyncEvent::Found(found)) => match query_action(
            found,
            config.custom,
        ) {
            QueryAction::Create => SyncState::WriteQuery(config, false),
            QueryAction::Overwrite => SyncState::WriteQuery(config, true),
            QueryAction::Keep => SyncState::CheckParser(
                resolve_parser_path(plan.pack_root.as_str(), config.parser.as_str(), os, arch),
            ),
        },
        (SyncState::WriteQuery(config, over), SyncEvent::Finished(result)) => match result {
            Ok(_) => SyncState::CheckParser(
                resolve_parser_path(plan.pack_root.as_str(), config.parser.as_str(), os, arch),
            ),
            Err(message) => {
                let what: &str = if over {
                    "overwrite"
                } else {
                    "write"
                };
                SyncState::Done(
                    Err(describe_failure(what, plan.query_path.as_str(), message.as_str())),
                )
            },
        },
        (SyncState::CheckParser(path), SyncEvent::Found(found)) => match parser_action(
            found,
            plan.allow_download,
        ) {
            ParserAction::Ready => SyncState::Done(Ok(())),
            ParserAction::Download => SyncState::Download(path),
            ParserAction::Refuse => SyncState::Done(Err("parser download disabled".to_owned())),
        },
        (SyncState::Download(_), SyncEvent::Finished(result)) => match result {
            Ok(_) => SyncState::Done(Ok(())),
            Err(message) => SyncState::Done(Err(message)),
        },
        (state, _) => state,
    }
}

/// Where some steps to bring a pack up to date lead, one behind the other.
pub open spec fn sync_run(
    plan: SyncView,
    state: SyncStateView,
    events: Seq<SyncEvent>,
    os: Seq<char>,
    arch: Seq<char>,
) -> SyncStateView
    decreases events.len(),
{
    if events.len() == 0 {
        state
    } else {
        sync_run(plan, next_sync(plan, state, events[0], os, arch), events.drop_first(), os, arch)
    }
}

/// Whether a state writes over no queries that are a pack's own.
spec fn keeps_queries(state: SyncStateView) -> bool {
    state matches SyncStateView::WriteQuery(config, true) ==> config.custom != Some(true)
}

proof fn lemma_custom_queries(
    plan: SyncView,
    state: SyncStateView,
    events: Seq<SyncEvent>,
    os: Seq<char>,
    arch: Seq<char>,
)
    requires
        keeps_queries(state),
    ensures
        keeps_queries(sync_run(plan, state, events, os, arch)),
    decreases events.len(),
{
    if events.len() > 0 {
        let next = next_sync(plan, state, events[0], os, arch);
        lemma_custom_queries(plan, next, events.drop_first(), os, arch);
    }
}

/// A pack that has its own queries keeps them: whatever comes of the steps,
/// nothing is written over them.
pub proof fn law_custom_queries_are_kept(
    plan: SyncView,
    events: Seq<SyncEvent>,
    os: Seq<char>,
    arch: Seq<char>,
)
    ensures
        sync_run(plan, SyncStateView::MakeDirectory, events, os, arch) matches
            SyncStateView::WriteQuery(config, true) ==> config.custom != Some(true),
{
    lemma_custom_queries(plan, SyncStateView::MakeDirectory, events, os, arch);
}

proof fn lemma_no_download(
    plan: SyncView,
    state: SyncStateView,
    events: Seq<SyncEvent>,
    os: Seq<char>,
    arch: Seq<char>,
)
    requires
        !plan.allow_download,
        state !is Download,
    ensures
        sync_run(plan, state, events, os, arch) !is Download,
    decreases events.len(),
{
    if events.len() > 0 {
        let next = next_sync(plan, state, events[0], os, arch);
        lemma_no_download(plan, next, events.drop_first(), os, arch);
    }
}

/// Nothing is downloaded where that is not allowed, whatever comes of the steps.
pub proof fn law_no_download_unless_allowed(
    plan: SyncView,
    events: Seq<SyncEvent>,
    os: Seq<char>,
    arch: Seq<char>,
)
    requires
        !plan.allow_download,
    ensures
        sync_run(plan, SyncStateView::MakeDirectory, events, os, arch) !is Download,
{
    lemma_no_download(plan, SyncStateView::MakeDirectory, events, os, arch);
}

// ---------------------------------------------------------------------------
// Downloads
// ---------------------------------------------------------------------------

/// Where the latest release of a repository is described.
pub open spec fn release_address(repo: Seq<char>) -> Seq<char> {
    "https://api.github.com/repos/"@ + repo + "/releases/latest"@
}

/// Where the latest release of a repository is described.
pub fn latest_url(repo: &str) -> (url: String)
    ensures
        url@ == release_address(repo@),
{
    let mut url = concat("https://api.github.com/repos/", repo);
    url.push_str("/releases/latest");
    url
}

/// The first asset with a name.
pub open spec fn named_asset(assets: Seq<JsonView>, name: Seq<char>) -> Option<JsonView>
    decreases assets.len(),
{
    if assets.len() == 0 {
        None
    } else if as_text(field(assets[0], "name"@)) == Some(name) {
        Some(assets[0])
    } else {
        named_asset(assets.drop_first(), name)
    }
}

/// Where the binary of a release is downloaded from.
pub open spec fn download_address(release: JsonView, name: Seq<char>, repo: Seq<char>) -> Result<
    Seq<char>,
    Seq<char>,
> {
    match field(release, "assets"@) {
        Some(JsonView::List(assets)) => match named_asset(assets, name) {
            None => Err("release asset not found: "@ + name),
            Some(asset) => match as_text(field(asset, "browser_download_url"@)) {
                None => Err("asset download url missing for "@ + repo),
                Some(url) => Ok(url),
            },
        },
        _ => Err("release assets missing for "@ + repo),
    }
}

/// Finds where the binary of a release is downloaded from.
pub fn find_asset(release: &Json, name: &str, repo: &str) -> (url: Result<String, String>)
    ensures
        match url {
            Ok(url) => download_address(release@, name@, repo@) == Ok::<Seq<char>, Seq<char>>(url@),
            Err(message) => download_address(release@, name@, repo@) == Err::<Seq<char>, Seq<char>>(
                message@,
            ),
        },
{
    match get(release, "assets") {
        Some(Json::List(assets)) => {
            let ghost all = items_view(assets@);
            proof {
                lemma_list_view(*assets);
            }
            let mut i: usize = 0;
            assert(all.skip(0) =~= all);
            while i < assets.len()
                invariant
                    i <= assets@.len(),
                    all == items_view(assets@),
                    field(release@, "assets"@) == Some(JsonView::List(all)),
                    named_asset(all, name@) == named_asset(all.skip(i as int), name@),
                decreases assets@.len() - i,
            {
                let asset = &assets[i];
                proof {
                    assert(all.skip(i as int)[0] == asset@);
                    assert(all.skip(i as int).drop_first() =~= all.skip(i + 1));
                }
                let own = match get_text(asset, "name") {
                    Some(own) => same_text(own.as_str(), name),
                    None => false,
                };
                if own {
                    return match get_text(asset, "browser_download_url") {
                        Some(url) => Ok(url),
                        None => Err(concat("asset download url missing for ", repo)),
                    };
                }
                i = i + 1;
            }
            Err(concat("release asset not found: ", name))
        },
        _ => Err(concat("release assets missing for ", repo)),
    }
}

/// A path beside a binary under which it is written before it is moved to its
/// place. It differs from call to call.
pub fn temp_path(path: &str) -> (temp: String)
    ensures
        exists|id: Seq<char>|
            random_id(id) && temp@ == #[trigger] path_with_extension(path@, "tmp-"@ + id),
{
    let id = new_chunk_id();
    let temp = with_extension(path, concat("tmp-", id.as_str()).as_str());
    assert(random_id(id@) && temp@ == path_with_extension(path@, "tmp-"@ + id@));
    temp
}

/// What is told where a binary has to be put into place by hand.
pub open spec fn manual_notes(
    language: KnownView,
    asset: Seq<char>,
    path: Seq<char>,
) -> (Seq<char>, Seq<char>) {
    let place = match path_parent(path) {
        Some(parent) => parent,
        None => "<language pack>"@,
    };
    (
        "missing parser for "@ + language.name + ". Download '"@ + asset
            + "' from https://github.com/"@ + language.repo + "/releases/latest and place it at "@
            + path,
        "ensure "@ + place + "/language.toml and "@ + place
            + "/queries.scm exist (custom=true prevents overwrite)"@,
    )
}

/// What is told where a binary has to be put into place by hand.
pub fn manual_download_notes(language: &KnownLanguage, asset_name: &str, path: &str) -> (notes: (
    String,
    String,
))
    ensures
        (notes.0@, notes.1@) == manual_notes(language@, asset_name@, path@),
{
    let mut first = concat("missing parser for ", language.name.as_str());
    first.push_str(". Download '");
    first.push_str(asset_name);
    first.push_str("' from https://github.com/");
    first.push_str(language.repo.as_str());
    first.push_str("/releases/latest and place it at ");
    first.push_str(path);
    let place: String = match parent(path) {
        Some(place) => place,
        None => "<language pack>".to_owned(),
    };
    let mut second = concat("ensure ", place.as_str());
    second.push_str("/language.toml and ");
    second.push_str(place.as_str());
    second.push_str("/queries.scm exist (custom=true prevents overwrite)");
    (first, second)
}

// ---------------------------------------------------------------------------
// Loading packs
// ---------------------------------------------------------------------------

/// Whether a pack is loaded: all are where no names are given, else those whose
/// name is given, without regard to case.
pub open spec fn wanted_pack(name: Seq<char>, names: Option<Seq<Seq<char>>>) -> bool {
    match names {
        None => true,
        Some(names) => lists_lowercase(names, lowercase(name)),
    }
}

/// Whether a pack is loaded.
pub fn pack_wanted(name: &str, names: &Option<Vec<String>>) -> (wanted: bool)
    ensures
        wanted == wanted_pack(name@, texts_view(*names)),
{
    match names {
        None => true,
        Some(list) => {
            let lower = name.to_lowercase();
            contains_lowercase(list, lower.as_str())
        },
    }
}

/// The files of a pack that lies in `pack_root`.
pub fn locate_pack(config: LanguageConfig, pack_root: &str, os: &str, arch: &str) -> (pack:
    LanguagePack)
    ensures
        pack.config == config,
        pack.parser_path@ == joined_path(pack_root@, filled_in(config.parser@, os@, arch@)),
        pack.structural_query_path@ == joined_path(pack_root@, config.queries.structural@),
{
    LanguagePack {
        parser_path: resolve_parser_path(pack_root, config.parser.as_str(), os, arch),
        structural_query_path: join_path(pack_root, config.queries.structural.as_str()),
        config,
    }
}

/// Why a pack cannot be loaded, if it cannot: its query or its binary is
/// missing.
pub fn missing_part(pack: &LanguagePack, query_exists: bool, parser_exists: bool) -> (warning:
    Option<String>)
    ensures
        text_view(warning) == if !query_exists {
            Some("missing structural query: "@ + pack.structural_query_path@)
        } else if !parser_exists {
            Some("missing parser binary: "@ + pack.parser_path@)
        } else {
            None
        },
{
    if !query_exists {
        Some(concat("missing structural query: ", pack.structural_query_path.as_str()))
    } else if !parser_exists {
        Some(concat("missing parser binary: ", pack.parser_path.as_str()))
    } else {
        None
    }
}

} // verus!
