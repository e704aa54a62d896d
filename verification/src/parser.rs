//! Languages that are loaded, how a file's language is told, and how its text is
//! parsed and cut.
use crate::chunker::{ids_ok, structural_pieces, try_structural_chunks};
use crate::config::result_view;
use crate::langpacks::LanguageConfig;
use crate::nodes::distinct_spans;
use crate::paths::{extension, path_extension};
use crate::sorting::views;
use crate::span_laws::law_text_is_chunked;
use crate::spans::Span;
use crate::syntax::{
    captures_of, language_fits, new_parser, parse_text, parsed_from, parser_language, query_fault,
    query_of, read_query, reads_whole, set_language, tree_of,
};
use crate::text::{
    clone_texts, concat, contains_lowercase, equal_ignoring_case, lists_lowercase, lowercase,
    replace_part, replaced, same_ignoring_case, texts,
};
use crate::types::{Chunk, ChunkView};
use vstd::prelude::*;

verus! {

/// A language with its grammar and its structural query.
pub struct LoadedLanguage {
    pub name: String,
    pub extensions: Vec<String>,
    pub language: tree_sitter::Language,
    pub structural_query: tree_sitter::Query,
}

/// A language as a mathematical value.
#[verifier::ext_equal]
pub struct LoadedView {
    pub name: Seq<char>,
    pub extensions: Seq<Seq<char>>,
    pub language: tree_sitter::Language,
    pub query: tree_sitter::Query,
}

impl View for LoadedLanguage {
    type V = LoadedView;

    open spec fn view(&self) -> LoadedView {
        LoadedView {
            name: self.name@,
            extensions: texts(self.extensions@),
            language: self.language,
            query: self.structural_query,
        }
    }
}

/// The languages that are loaded, in the order in which they were loaded.
pub struct LanguageRegistry {
    pub languages: Vec<LoadedLanguage>,
}

// ---------------------------------------------------------------------------
// Loading
// ---------------------------------------------------------------------------

/// The name of the function by which a parser binary gives its grammar.
pub open spec fn grammar_symbol(name: Seq<char>) -> Seq<char> {
    "tree_sitter_"@ + replaced(name, "-"@, "_"@)
}

/// The name of the function by which a parser binary gives its grammar.
pub fn symbol_name(name: &str) -> (symbol: String)
    ensures
        symbol@ == grammar_symbol(name@),
{
    proof {
        reveal_strlit("-");
    }
    concat("tree_sitter_", replace_part(name, "-", "_").as_str())
}

/// A language pack as it is loaded: with its query, which has to be readable.
pub open spec fn loaded(
    name: Seq<char>,
    extensions: Seq<Seq<char>>,
    language: tree_sitter::Language,
    query: Seq<char>,
) -> Result<LoadedView, Seq<char>> {
    match query_fault(language, query) {
        Some(message) => Err("invalid structural query for "@ + name + ": "@ + message),
        None => Ok(LoadedView { name, extensions, language, query: query_of(language, query) }),
    }
}

/// Loads a language pack whose grammar and whose query text were read.
pub fn load_language(
    config: &LanguageConfig,
    language: tree_sitter::Language,
    query_source: &str,
) -> (out: Result<LoadedLanguage, String>)
    ensures
        result_view(out) == loaded(
            config.name@,
            texts(config.extensions@),
            language,
            query_source@,
        ),
{
    match read_query(&language, query_source) {
        Ok(query) => Ok(
            LoadedLanguage {
                name: config.name.clone(),
                extensions: clone_texts(&config.extensions),
                language,
                structural_query: query,
            },
        ),
        Err(problem) => {
            let mut message = concat("invalid structural query for ", config.name.as_str());
            message.push_str(": ");
            message.push_str(problem.as_str());
            Err(message)
        },
    }
}

/// Puts loaded languages together.
pub fn build_registry(languages: Vec<LoadedLanguage>) -> (registry: LanguageRegistry)
    ensures
        registry.languages@ == languages@,
{
    LanguageRegistry { languages }
}

// ---------------------------------------------------------------------------
// Finding
// ---------------------------------------------------------------------------

/// The last language that claims an extension.
pub open spec fn extension_owner(languages: Seq<LoadedView>, wanted: Seq<char>) -> Option<
    LoadedView,
>
    decreases languages.len(),
{
    if languages.len() == 0 {
        None
    } else if lists_lowercase(languages.last().extensions, wanted) {
        Some(languages.last())
    } else {
        extension_owner(languages.drop_last(), wanted)
    }
}

/// The language of a file: by its extension, without regard to case.
pub open spec fn file_language(languages: Seq<LoadedView>, path: Seq<char>) -> Option<LoadedView> {
    match path_extension(path) {
        Some(extension) => extension_owner(languages, lowercase(extension)),
        None => None,
    }
}

/// The language of the file at `path`, by its extension.
pub fn detect_language<'a>(registry: &'a LanguageRegistry, path: &str) -> (found: Option<
    &'a LoadedLanguage,
>)
    ensures
        match found {
            Some(found) => file_language(views(registry.languages@), path@) == Some(found@),
            None => file_language(views(registry.languages@), path@) is None,
        },
{
    let ghost all = views(registry.languages@);
    match extension(path) {
        None => None,
        Some(own) => {
            let wanted = own.as_str().to_lowercase();
            let mut i: usize = registry.languages.len();
            assert(all.take(i as int) =~= all);
            while i > 0
                invariant
                    i <= registry.languages@.len(),
                    all == views(registry.languages@),
                    path_extension(path@) == Some(own@),
                    wanted@ == lowercase(own@),
                    extension_owner(all, wanted@) == extension_owner(all.take(i as int), wanted@),
                decreases i,
            {
                let language = &registry.languages[i - 1];
                proof {
                    assert(all.take(i as int).last() == language@);
                    assert(all.take(i as int).drop_last() =~= all.take(i - 1));
                }
                if contains_lowercase(&language.extensions, wanted.as_str()) {
                    return Some(language);
                }
                i = i - 1;
            }
            None
        },
    }
}

/// The first language with a name, without regard to the case of ASCII letters.
pub open spec fn named_language(languages: Seq<LoadedView>, name: Seq<char>) -> Option<LoadedView>
    decreases languages.len(),
{
    if languages.len() == 0 {
        None
    } else if same_ignoring_case(languages[0].name, name) {
        Some(languages[0])
    } else {
        named_language(languages.drop_first(), name)
    }
}

/// The language with the name `name`.
pub fn detect_language_by_name<'a>(registry: &'a LanguageRegistry, name: &str) -> (found: Option<
    &'a LoadedLanguage,
>)
    ensures
        match found {
            Some(found) => named_language(views(registry.languages@), name@) == Some(found@),
            None => named_language(views(registry.languages@), name@) is None,
        },
{
    let ghost all = views(registry.languages@);
    let mut i: usize = 0;
    assert(all.skip(0) =~= all);
    while i < registry.languages.len()
        invariant
            i <= registry.languages@.len(),
            all == views(registry.languages@),
            named_language(all, name@) == named_language(all.skip(i as int), name@),
        decreases registry.languages@.len() - i,
    {
        let language = &registry.languages[i];
        proof {
            assert(all.skip(i as int)[0] == language@);
            assert(all.skip(i as int).drop_first() =~= all.skip(i + 1));
        }
        if equal_ignoring_case(language.name.as_str(), name) {
            return Some(language);
        }
        i = i + 1;
    }
    None
}

// ---------------------------------------------------------------------------
// Parsing
// ---------------------------------------------------------------------------

/// Parses a text with the grammar of a language. The grammar has to be one that
/// the parser takes. A parser that reads the whole text succeeds.
pub fn parse_source(
    parser: &mut tree_sitter::Parser,
    language: &LoadedLanguage,
    source: &str,
) -> (tree: Result<tree_sitter::Tree, String>)
    ensures
        match tree {
            Ok(tree) => {
                &&& language_fits(language.language)
                &&& reads_whole(*old(parser)) ==> tree == tree_of(language.language, source@)
                    && parsed_from(tree) == source@
            },
            Err(message) => if language_fits(language.language) {
                !reads_whole(*old(parser)) && message@ == "failed to parse source"@
            } else {
                message@ == "failed to set parser language"@
            },
        },
        reads_whole(*old(parser)) ==> reads_whole(*final(parser)),
        language_fits(language.language) ==> parser_language(*final(parser)) == Some(
            language.language,
        ),
        !language_fits(language.language) ==> parser_language(*final(parser)) == parser_language(
            *old(parser),
        ),
{
    if !set_language(parser, &language.language) {
        return Err("failed to set parser language".to_owned());
    }
    match parse_text(parser, source) {
        Some(tree) => Ok(tree),
        None => Err("failed to parse source".to_owned()),
    }
}

/// The structural nodes of a text of a language.
pub open spec fn source_nodes(language: LoadedView, source: Seq<char>) -> Seq<Span> {
    distinct_spans(captures_of(source, tree_of(language.language, source), language.query))
}

/// The chunks of a text of a language. Nothing where a node of its tree would have
/// to be cut out in the middle of a character.
pub open spec fn source_pieces(
    language: LoadedView,
    path: Seq<char>,
    source: Seq<char>,
    max: int,
    overlap: int,
) -> Option<Seq<ChunkView>> {
    let tree = tree_of(language.language, source);
    structural_pieces(
        path,
        language.name,
        source,
        tree,
        captures_of(source, tree, language.query),
        max,
        overlap,
    )
}

/// Parses a text and cuts it into chunks. Gives nothing where a node would have to
/// be cut out in the middle of a character.
pub fn try_chunk_source(
    language: &LoadedLanguage,
    file_path: &str,
    source: &str,
    max_tokens: usize,
    overlap_tokens: usize,
) -> (out: Result<Option<Vec<Chunk>>, String>)
    ensures
        match out {
            Ok(chunks) => {
                &&& language_fits(language.language)
                &&& match chunks {
                    Some(chunks) => source_pieces(
                        language@,
                        file_path@,
                        source@,
                        max_tokens as int,
                        overlap_tokens as int,
                    ) == Some(views(chunks@)) && ids_ok(chunks@),
                    None => source_pieces(
                        language@,
                        file_path@,
                        source@,
                        max_tokens as int,
                        overlap_tokens as int,
                    ) is None,
                }
            },
            Err(message) => {
                &&& !language_fits(language.language)
                &&& message@ == "failed to set parser language"@
            },
        },
{
    let mut parser = new_parser();
    match parse_source(&mut parser, language, source) {
        Err(message) => Err(message),
        Ok(tree) => Ok(
            try_structural_chunks(
                file_path,
                language.name.as_str(),
                source,
                &tree,
                &language.structural_query,
                max_tokens,
                overlap_tokens,
            ),
        ),
    }
}

/// Parses a text and cuts it into chunks.
pub fn chunk_source_with_limits(
    language: &LoadedLanguage,
    file_path: &str,
    source: &str,
    max_tokens: usize,
    overlap_tokens: usize,
) -> (out: Result<Vec<Chunk>, String>)
    requires
        language_fits(language.language) && source_nodes(language@, source@).len() > 0
            ==> source_pieces(
            language@,
            file_path@,
            source@,
            max_tokens as int,
            overlap_tokens as int,
        ) is Some,
    ensures
        match out {
            Ok(chunks) => {
                &&& language_fits(language.language)
                &&& source_pieces(
                    language@,
                    file_path@,
                    source@,
                    max_tokens as int,
                    overlap_tokens as int,
                ) == Some(views(chunks@))
                &&& ids_ok(chunks@)
            },
            Err(message) => {
                &&& !language_fits(language.language)
                &&& message@ == "failed to set parser language"@
            },
        },
{
    proof {
        law_text_is_chunked(
            file_path@,
            language.name@,
            source@,
            max_tokens as int,
            overlap_tokens as int,
        );
    }
    match try_chunk_source(language, file_path, source, max_tokens, overlap_tokens) {
        Err(message) => Err(message),
        Ok(Some(chunks)) => Ok(chunks),
        Ok(None) => Ok(Vec::new()),
    }
}

} // verus!
