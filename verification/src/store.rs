//! What is stored of chunks and sources, and which stored chunks a search may
//! give back.
use crate::globs::{build_glob_set, glob_set, is_match, matches_any, pattern_set, set_view};
use crate::json::{copy_json, Json, JsonNumber, JsonView, NumberView};
use crate::paths::{below, strip_prefix, under};
use crate::policy::limit_view;
use crate::sorting::views;
use crate::text::{
    concat, contains_part, contains_text, holds_part, lists_text, replace_part, replaced, same_text,
    text_lists, texts,
};
use crate::types::{copy_text, text_view, Chunk, ChunkMetadata, ChunkView, EmbeddedChunk};
use vstd::prelude::*;

verus! {

// ---------------------------------------------------------------------------
// Types
// ---------------------------------------------------------------------------

/// A chunk that a search found, with its score.
#[derive(Debug)]
pub struct SearchResult {
    pub chunk: Chunk,
    pub score: Json,
}

/// A root that a search may give chunks back from. What lies below it has to match
/// no pattern that denies, and one of each list that allows.
#[derive(Clone, Debug)]
pub struct RootFilter {
    pub path: String,
    pub allow: Vec<Vec<String>>,
    pub deny: Vec<String>,
}

/// Which chunks a search may give back. Besides those of the roots, its own
/// patterns have to let a chunk pass.
#[derive(Clone, Debug)]
pub struct SearchFilter {
    pub allowed_roots: Vec<RootFilter>,
    pub allow_globs: Vec<String>,
    pub deny_globs: Vec<String>,
    pub allow_languages: Vec<String>,
    pub deny_languages: Vec<String>,
    pub max_results: Option<usize>,
    pub max_bytes: Option<usize>,
}

/// A chunk that a search found, as a mathematical value.
#[verifier::ext_equal]
pub struct ResultView {
    pub id: Seq<char>,
    pub chunk: ChunkView,
    pub score: JsonView,
}

/// A root that a search may give chunks back from, as a mathematical value.
#[verifier::ext_equal]
pub struct RootFilterView {
    pub path: Seq<char>,
    pub allow: Seq<Seq<Seq<char>>>,
    pub deny: Seq<Seq<char>>,
}

/// Which chunks a search may give back, as a mathematical value.
#[verifier::ext_equal]
pub struct FilterView {
    pub allowed_roots: Seq<RootFilterView>,
    pub allow_globs: Seq<Seq<char>>,
    pub deny_globs: Seq<Seq<char>>,
    pub allow_languages: Seq<Seq<char>>,
    pub deny_languages: Seq<Seq<char>>,
    pub max_results: Option<int>,
    pub max_bytes: Option<int>,
}

impl View for SearchResult {
    type V = ResultView;

    open spec fn view(&self) -> ResultView {
        ResultView { id: self.chunk.id@, chunk: self.chunk@, score: self.score@ }
    }
}

impl View for RootFilter {
    type V = RootFilterView;

    open spec fn view(&self) -> RootFilterView {
        RootFilterView {
            path: self.path@,
            allow: text_lists(self.allow@),
            deny: texts(self.deny@),
        }
    }
}

impl View for SearchFilter {
    type V = FilterView;

    open spec fn view(&self) -> FilterView {
        FilterView {
            allowed_roots: views(self.allowed_roots@),
            allow_globs: texts(self.allow_globs@),
            deny_globs: texts(self.deny_globs@),
            allow_languages: texts(self.allow_languages@),
            deny_languages: texts(self.deny_languages@),
            max_results: limit_view(self.max_results),
            max_bytes: limit_view(self.max_bytes),
        }
    }
}

impl Default for SearchFilter {
    /// A filter that lets everything pass.
    fn default() -> (filter: Self)
        ensures
            filter@ == (FilterView {
                allowed_roots: Seq::empty(),
                allow_globs: Seq::empty(),
                deny_globs: Seq::empty(),
                allow_languages: Seq::empty(),
                deny_languages: Seq::empty(),
                max_results: None,
                max_bytes: None,
            }),
    {
        let filter = SearchFilter {
            allowed_roots: Vec::new(),
            allow_globs: Vec::new(),
            deny_globs: Vec::new(),
            allow_languages: Vec::new(),
            deny_languages: Vec::new(),
            max_results: None,
            max_bytes: None,
        };
        assert(views(filter.allowed_roots@) =~= Seq::<RootFilterView>::empty());
        filter
    }
}

// ---------------------------------------------------------------------------
// Conditions
// ---------------------------------------------------------------------------

/// A text as it stands between apostrophes in a condition: with each apostrophe
/// in it doubled.
pub open spec fn escaped(value: Seq<char>) -> Seq<char> {
    replaced(value, "'"@, "''"@)
}

/// Prepares a text for a condition.
pub fn escape_sql(value: &str) -> (out: String)
    ensures
        out@ == escaped(value@),
{
    proof {
        reveal_strlit("'");
    }
    replace_part(value, "'", "''")
}

/// The condition that holds of the chunks of a file.
pub open spec fn file_condition(path: Seq<char>) -> Seq<char> {
    "file_path = '"@ + escaped(path) + "'"@
}

/// The condition that holds of the chunks of a file.
pub fn file_filter(path: &str) -> (filter: String)
    ensures
        filter@ == file_condition(path@),
{
    let mut filter = concat("file_path = '", escape_sql(path).as_str());
    filter.push_str("'");
    filter
}

/// The condition that holds of the sources of a type.
pub open spec fn type_condition(source_type: Seq<char>) -> Seq<char> {
    "source_type = '"@ + escaped(source_type) + "'"@
}

/// The condition that holds of one source.
pub open spec fn source_condition(source_type: Seq<char>, source_id: Seq<char>) -> Seq<char> {
    type_condition(source_type) + " AND source_id = '"@ + escaped(source_id) + "'"@
}

/// The condition that holds of the sources of a type.
pub fn type_filter(source_type: &str) -> (filter: String)
    ensures
        filter@ == type_condition(source_type@),
{
    let mut filter = concat("source_type = '", escape_sql(source_type).as_str());
    filter.push_str("'");
    filter
}

/// The condition that holds of one source.
pub fn source_filter(source_type: &str, source_id: &str) -> (filter: String)
    ensures
        filter@ == source_condition(source_type@, source_id@),
{
    let mut filter = type_filter(source_type);
    filter.push_str(" AND source_id = '");
    filter.push_str(escape_sql(source_id).as_str());
    filter.push_str("'");
    filter
}

/// Whether a message says that a table does not exist.
pub open spec fn tells_missing(message: Seq<char>) -> bool {
    ||| holds_part(message, "Table 'chunks' was not found"@)
    ||| holds_part(message, "Table 'sources' was not found"@)
    ||| holds_part(message, "table was not found"@)
    ||| holds_part(message, "table not found"@)
}

/// Whether a message says that a table does not exist.
pub fn is_missing_table_error(message: &str) -> (missing: bool)
    ensures
        missing == tells_missing(message@),
{
    contains_part(message, "Table 'chunks' was not found") || contains_part(
        message,
        "Table 'sources' was not found",
    ) || contains_part(message, "table was not found") || contains_part(message, "table not found")
}

/// What to tell where the table of chunks cannot be opened: nothing where it
/// does not exist yet, since then it holds no chunks.
pub fn chunk_table_failure(message: &str) -> (failure: Option<String>)
    ensures
        text_view(failure) == if tells_missing(message@) {
            None
        } else {
            Some("failed to open table: "@ + message@)
        },
{
    if is_missing_table_error(message) {
        None
    } else {
        Some(concat("failed to open table: ", message))
    }
}

// ---------------------------------------------------------------------------
// Tables
// ---------------------------------------------------------------------------

/// What a column holds.
#[derive(Clone, Copy, Debug, PartialEq, Eq, Structural)]
pub enum ColumnKind {
    Text,
    Number,
    Vector(usize),
}

/// A column of a table.
#[derive(Clone, Debug)]
pub struct ColumnField {
    pub name: String,
    pub kind: ColumnKind,
    pub nullable: bool,
}

impl View for ColumnField {
    type V = (Seq<char>, ColumnKind, bool);

    open spec fn view(&self) -> (Seq<char>, ColumnKind, bool) {
        (self.name@, self.kind, self.nullable)
    }
}

/// The columns of the table of chunks, for embeddings of `dimension` numbers.
pub open spec fn chunk_table(dimension: usize) -> Seq<(Seq<char>, ColumnKind, bool)> {
    Seq::empty()
        .push(("chunk_id"@, ColumnKind::Text, false))
        .push(("file_path"@, ColumnKind::Text, false))
        .push(("language"@, ColumnKind::Text, false))
        .push(("node_kind"@, ColumnKind::Text, false))
        .push(("start_line"@, ColumnKind::Number, false))
        .push(("end_line"@, ColumnKind::Number, false))
        .push(("parent_context"@, ColumnKind::Text, true))
        .push(("text"@, ColumnKind::Text, false))
        .push(("embedding"@, ColumnKind::Vector(dimension), false))
}

/// The columns of the table of sources.
pub open spec fn source_table() -> Seq<(Seq<char>, ColumnKind, bool)> {
    Seq::empty()
        .push(("source_id"@, ColumnKind::Text, false))
        .push(("source_type"@, ColumnKind::Text, false))
        .push(("content_hash"@, ColumnKind::Text, false))
}

/// Adds a column.
fn add_column(columns: &mut Vec<ColumnField>, name: &str, kind: ColumnKind, nullable: bool)
    ensures
        views(final(columns)@) == views(old(columns)@).push((name@, kind, nullable)),
{
    let ghost before = views(columns@);
    columns.push(ColumnField { name: name.to_owned(), kind, nullable });
    assert(views(columns@) =~= before.push((name@, kind, nullable)));
}

/// The columns of the table of chunks, for embeddings of `dimension` numbers.
pub fn chunk_columns(dimension: usize) -> (columns: Vec<ColumnField>)
    ensures
        views(columns@) == chunk_table(dimension),
{
    let mut columns: Vec<ColumnField> = Vec::new();
    assert(views(columns@) =~= Seq::<(Seq<char>, ColumnKind, bool)>::empty());
    add_column(&mut columns, "chunk_id", ColumnKind::Text, false);
    add_column(&mut columns, "file_path", ColumnKind::Text, false);
    add_column(&mut columns, "language", ColumnKind::Text, false);
    add_column(&mut columns, "node_kind", ColumnKind::Text, false);
    add_column(&mut columns, "start_line", ColumnKind::Number, false);
    add_column(&mut columns, "end_line", ColumnKind::Number, false);
    add_column(&mut columns, "parent_context", ColumnKind::Text, true);
    add_column(&mut columns, "text", ColumnKind::Text, false);
    add_column(&mut columns, "embedding", ColumnKind::Vector(dimension), false);
    columns
}

/// The columns of the table of sources.
pub fn source_columns() -> (columns: Vec<ColumnField>)
    ensures
        views(columns@) == source_table(),
{
    let mut columns: Vec<ColumnField> = Vec::new();
    assert(views(columns@) =~= Seq::<(Seq<char>, ColumnKind, bool)>::empty());
    add_column(&mut columns, "source_id", ColumnKind::Text, false);
    add_column(&mut columns, "source_type", ColumnKind::Text, false);
    add_column(&mut columns, "content_hash", ColumnKind::Text, false);
    columns
}

/// What a source has in a column of the table of sources.
pub open spec fn source_cell(
    column: Seq<char>,
    source_type: Seq<char>,
    source_id: Seq<char>,
    content_hash: Seq<char>,
) -> Option<Seq<char>> {
    if column == "source_id"@ {
        Some(source_id)
    } else if column == "source_type"@ {
        Some(source_type)
    } else if column == "content_hash"@ {
        Some(content_hash)
    } else {
        None
    }
}

/// The values of a row of the table of sources, in the order of its columns.
pub fn source_row(source_type: &str, source_id: &str, content_hash: &str) -> (row: Vec<String>)
    ensures
        texts(row@) == Seq::empty().push(source_id@).push(source_type@).push(content_hash@),
        row@.len() == source_table().len(),
        forall|i: int|
            0 <= i < row@.len() ==> source_cell(
                source_table()[i].0,
                source_type@,
                source_id@,
                content_hash@,
            ) == Some((#[trigger] row@[i])@),
{
    proof {
        reveal_strlit("source_id");
        reveal_strlit("source_type");
        reveal_strlit("content_hash");
        assert("source_id"@.len() == 9);
        assert("source_type"@.len() == 11);
        assert("content_hash"@.len() == 12);
    }
    let mut row: Vec<String> = Vec::new();
    row.push(source_id.to_owned());
    row.push(source_type.to_owned());
    row.push(content_hash.to_owned());
    assert(texts(row@) =~= Seq::empty().push(source_id@).push(source_type@).push(content_hash@));
    row
}

// ---------------------------------------------------------------------------
// Writing chunks
// ---------------------------------------------------------------------------

/// Chunks by columns, as they are written to the table of chunks. The
/// embeddings stand one behind the other, each of `dimension` numbers.
#[derive(Debug)]
pub struct ChunkColumns<E> {
    pub chunk_ids: Vec<String>,
    pub file_paths: Vec<String>,
    pub languages: Vec<String>,
    pub node_kinds: Vec<String>,
    pub start_lines: Vec<u32>,
    pub end_lines: Vec<u32>,
    pub parent_contexts: Vec<Option<String>>,
    pub texts: Vec<String>,
    pub embeddings: Vec<E>,
    pub dimension: usize,
}

/// What is wrong with chunks that are to be written, if anything is.
pub open spec fn batch_fault<E>(chunks: Seq<EmbeddedChunk<E>>) -> Option<Seq<char>> {
    if chunks.len() == 0 {
        Some("no chunks to upsert"@)
    } else if chunks[0].embedding@.len() == 0 {
        Some("embedding dimension is zero"@)
    } else if exists|i: int|
        0 <= i < chunks.len() && (#[trigger] chunks[i]).embedding@.len()
            != chunks[0].embedding@.len() {
        Some("embedding dimension mismatch"@)
    } else {
        None
    }
}

/// The embeddings of chunks, one behind the other.
pub open spec fn flattened<E>(chunks: Seq<EmbeddedChunk<E>>) -> Seq<E>
    decreases chunks.len(),
{
    if chunks.len() == 0 {
        Seq::empty()
    } else {
        flattened(chunks.drop_last()) + chunks.last().embedding@
    }
}

/// Whether the columns hold the chunks, row by row. Lines keep the bits that fit
/// into their column.
pub open spec fn holds_chunks<E>(columns: ChunkColumns<E>, chunks: Seq<EmbeddedChunk<E>>) -> bool {
    let count = chunks.len();
    &&& columns.chunk_ids@.len() == count
    &&& columns.file_paths@.len() == count
    &&& columns.languages@.len() == count
    &&& columns.node_kinds@.len() == count
    &&& columns.start_lines@.len() == count
    &&& columns.end_lines@.len() == count
    &&& columns.parent_contexts@.len() == count
    &&& columns.texts@.len() == count
    &&& forall|i: int|
        0 <= i < count ==> holds_chunk(columns, i, #[trigger] chunks[i])
    &&& columns.embeddings@ == flattened(chunks)
}

/// Whether row `i` of the columns holds a chunk.
pub open spec fn holds_chunk<E>(columns: ChunkColumns<E>, i: int, chunk: EmbeddedChunk<E>) -> bool {
    let own = chunk.chunk;
    &&& columns.chunk_ids@[i]@ == own.id@
    &&& columns.file_paths@[i]@ == own.metadata.file_path@
    &&& columns.languages@[i]@ == own.metadata.language@
    &&& columns.node_kinds@[i]@ == own.metadata.node_kind@
    &&& columns.start_lines@[i] == own.metadata.start_line as u32
    &&& columns.end_lines@[i] == own.metadata.end_line as u32
    &&& text_view(columns.parent_contexts@[i]) == text_view(own.metadata.parent_context)
    &&& columns.texts@[i]@ == own.text@
}

/// Puts chunks into columns. There has to be a chunk, and all embeddings have to
/// have one length that is not zero.
pub fn build_record_batch<E: Copy>(chunks: &Vec<EmbeddedChunk<E>>) -> (columns: Result<
    ChunkColumns<E>,
    String,
>)
    ensures
        match columns {
            Ok(columns) => {
                &&& batch_fault(chunks@) is None
                &&& columns.dimension == chunks@[0].embedding@.len()
                &&& holds_chunks(columns, chunks@)
            },
            Err(message) => batch_fault(chunks@) == Some(message@),
        },
{
    if chunks.len() == 0 {
        return Err("no chunks to upsert".to_owned());
    }
    let dimension: usize = chunks[0].embedding.len();
    if dimension == 0 {
        return Err("embedding dimension is zero".to_owned());
    }
    let mut i: usize = 0;
    while i < chunks.len()
        invariant
            i <= chunks@.len(),
            chunks@.len() > 0,
            dimension == chunks@[0].embedding@.len(),
            dimension > 0,
            forall|k: int| 0 <= k < i ==> (#[trigger] chunks@[k]).embedding@.len() == dimension,
        decreases chunks@.len() - i,
    {
        if chunks[i].embedding.len() != dimension {
            assert(chunks@[i as int].embedding@.len() != chunks@[0].embedding@.len());
            return Err("embedding dimension mismatch".to_owned());
        }
        i = i + 1;
    }
    let mut columns = ChunkColumns {
        chunk_ids: Vec::new(),
        file_paths: Vec::new(),
        languages: Vec::new(),
        node_kinds: Vec::new(),
        start_lines: Vec::new(),
        end_lines: Vec::new(),
        parent_contexts: Vec::new(),
        texts: Vec::new(),
        embeddings: Vec::new(),
        dimension,
    };
    let mut row: usize = 0;
    assert(columns.embeddings@ =~= flattened(chunks@.take(0)));
    while row < chunks.len()
        invariant
            row <= chunks@.len(),
            columns.dimension == dimension,
            holds_chunks(columns, chunks@.take(row as int)),
        decreases chunks@.len() - row,
    {
        let chunk = &chunks[row];
        let ghost before = columns;
        let ghost done = chunks@.take(row as int);
        columns.chunk_ids.push(chunk.chunk.id.clone());
        columns.file_paths.push(chunk.chunk.metadata.file_path.clone());
        columns.languages.push(chunk.chunk.metadata.language.clone());
        columns.node_kinds.push(chunk.chunk.metadata.node_kind.clone());
        columns.start_lines.push(chunk.chunk.metadata.start_line as u32);
        columns.end_lines.push(chunk.chunk.metadata.end_line as u32);
        columns.parent_contexts.push(copy_text(&chunk.chunk.metadata.parent_context));
        columns.texts.push(chunk.chunk.text.clone());
        let ghost part = columns.embeddings@;
        let mut k: usize = 0;
        assert(part + chunk.embedding@.take(0) =~= part);
        while k < chunk.embedding.len()
            invariant
                k <= chunk.embedding@.len(),
                columns.embeddings@ == part + chunk.embedding@.take(k as int),
                columns.chunk_ids@ == before.chunk_ids@.push(columns.chunk_ids@.last()),
                columns.chunk_ids@.last()@ == chunk.chunk.id@,
                columns.file_paths@ == before.file_paths@.push(columns.file_paths@.last()),
                columns.file_paths@.last()@ == chunk.chunk.metadata.file_path@,
                columns.languages@ == before.languages@.push(columns.languages@.last()),
                columns.languages@.last()@ == chunk.chunk.metadata.language@,
                columns.node_kinds@ == before.node_kinds@.push(columns.node_kinds@.last()),
                columns.node_kinds@.last()@ == chunk.chunk.metadata.node_kind@,
                columns.start_lines@ == before.start_lines@.push(
                    chunk.chunk.metadata.start_line as u32,
                ),
                columns.end_lines@ == before.end_lines@.push(
                    chunk.chunk.metadata.end_line as u32,
                ),
                columns.parent_contexts@ == before.parent_contexts@.push(
                    columns.parent_contexts@.last(),
                ),
                text_view(columns.parent_contexts@.last()) == text_view(
                    chunk.chunk.metadata.parent_context,
                ),
                columns.texts@ == before.texts@.push(columns.texts@.last()),
                columns.texts@.last()@ == chunk.chunk.text@,
                columns.dimension == dimension,
            decreases chunk.embedding@.len() - k,
        {
            columns.embeddings.push(chunk.embedding[k]);
            assert(part + chunk.embedding@.take(k + 1) =~= (part + chunk.embedding@.take(
                k as int,
            )).push(chunk.embedding@[k as int]));
            k = k + 1;
        }
        proof {
            let next = chunks@.take(row + 1);
            assert(chunk.embedding@.take(k as int) =~= chunk.embedding@);
            assert(next.drop_last() =~= done);
            assert(columns.embeddings@ == flattened(next));
            assert forall|i: int| 0 <= i < next.len() implies holds_chunk(
                columns,
                i,
                #[trigger] next[i],
            ) by {
                if i < row {
                    assert(next[i] == done[i]);
                    assert(holds_chunk(before, i, done[i]));
                } else {
                    assert(next[i] == *chunk);
                }
            }
        }
        row = row + 1;
    }
    assert(chunks@.take(row as int) =~= chunks@);
    Ok(columns)
}

// ---------------------------------------------------------------------------
// Reading chunks
// ---------------------------------------------------------------------------

/// A column that was asked for: it may be missing or hold something else.
#[derive(Debug)]
pub enum Column<T> {
    Missing,
    Mistyped,
    Values(Vec<T>),
}

/// A batch of rows that a search gave, by columns. Rows without a score have the
/// score zero.
#[derive(Debug)]
pub struct FoundColumns {
    pub rows: usize,
    pub chunk_id: Column<String>,
    pub file_path: Column<String>,
    pub language: Column<String>,
    pub node_kind: Column<String>,
    pub start_line: Column<u32>,
    pub end_line: Column<u32>,
    pub parent_context: Column<Option<String>>,
    pub text: Column<String>,
    pub scores: Vec<Json>,
}

/// Whether a column has a value for each row, if it has values.
pub open spec fn even<T>(column: Column<T>, rows: int) -> bool {
    match column {
        Column::Values(values) => values@.len() == rows,
        _ => true,
    }
}

impl FoundColumns {
    /// Whether all columns have as many values as there are rows.
    pub open spec fn valid(self) -> bool {
        &&& even(self.chunk_id, self.rows as int)
        &&& even(self.file_path, self.rows as int)
        &&& even(self.language, self.rows as int)
        &&& even(self.node_kind, self.rows as int)
        &&& even(self.start_line, self.rows as int)
        &&& even(self.end_line, self.rows as int)
        &&& even(self.parent_context, self.rows as int)
        &&& even(self.text, self.rows as int)
    }
}

/// What is wrong with a column, if anything is.
pub open spec fn column_fault<T>(column: Column<T>, name: Seq<char>) -> Option<Seq<char>> {
    match column {
        Column::Missing => Some("missing "@ + name + " column"@),
        Column::Mistyped => Some(name + " column type"@),
        Column::Values(_) => None,
    }
}

/// What is wrong with the first column that cannot be read, if there is one.
pub open spec fn columns_fault(columns: FoundColumns) -> Option<Seq<char>> {
    if !(columns.chunk_id is Values) {
        column_fault(columns.chunk_id, "chunk_id"@)
    } else if !(columns.file_path is Values) {
        column_fault(columns.file_path, "file_path"@)
    } else if !(columns.language is Values) {
        column_fault(columns.language, "language"@)
    } else if !(columns.node_kind is Values) {
        column_fault(columns.node_kind, "node_kind"@)
    } else if !(columns.start_line is Values) {
        column_fault(columns.start_line, "start_line"@)
    } else if !(columns.end_line is Values) {
        column_fault(columns.end_line, "end_line"@)
    } else if !(columns.parent_context is Values) {
        column_fault(columns.parent_context, "parent_context"@)
    } else {
        column_fault(columns.text, "text"@)
    }
}

/// The chunk in row `i`.
pub open spec fn found_row(columns: FoundColumns, i: int) -> ResultView {
    ResultView {
        id: columns.chunk_id->Values_0@[i]@,
        chunk: ChunkView {
            text: columns.text->Values_0@[i]@,
            path: columns.file_path->Values_0@[i]@,
            language: columns.language->Values_0@[i]@,
            kind: columns.node_kind->Values_0@[i]@,
            first_line: columns.start_line->Values_0@[i] as int,
            last_line: columns.end_line->Values_0@[i] as int,
            context: text_view(columns.parent_context->Values_0@[i]),
        },
        score: if i < columns.scores@.len() {
            columns.scores@[i]@
        } else {
            JsonView::Number(NumberView::Real("0.0"@))
        },
    }
}

/// Tells what is wrong with a column, if anything is.
fn find_column_fault<T>(column: &Column<T>, name: &str) -> (fault: Option<String>)
    ensures
        text_view(fault) == column_fault(*column, name@),
{
    match column {
        Column::Missing => {
            let mut message = concat("missing ", name);
            message.push_str(" column");
            Some(message)
        },
        Column::Mistyped => Some(concat(name, " column type")),
        Column::Values(_) => None,
    }
}

/// Tells what is wrong with the first column that cannot be read, if there is
/// one.
fn find_columns_fault(columns: &FoundColumns) -> (fault: Option<String>)
    ensures
        text_view(fault) == columns_fault(*columns),
{
    let fault = find_column_fault(&columns.chunk_id, "chunk_id");
    if fault.is_some() {
        return fault;
    }
    let fault = find_column_fault(&columns.file_path, "file_path");
    if fault.is_some() {
        return fault;
    }
    let fault = find_column_fault(&columns.language, "language");
    if fault.is_some() {
        return fault;
    }
    let fault = find_column_fault(&columns.node_kind, "node_kind");
    if fault.is_some() {
        return fault;
    }
    let fault = find_column_fault(&columns.start_line, "start_line");
    if fault.is_some() {
        return fault;
    }
    let fault = find_column_fault(&columns.end_line, "end_line");
    if fault.is_some() {
        return fault;
    }
    let fault = find_column_fault(&columns.parent_context, "parent_context");
    if fault.is_some() {
        return fault;
    }
    find_column_fault(&columns.text, "text")
}

// ---------------------------------------------------------------------------
// Filtering
// ---------------------------------------------------------------------------

/// Whether a path under a root passes the patterns: it must match none that
/// deny, and one that allow where there are any. The root itself passes.
pub open spec fn passes_globs(
    path: Seq<char>,
    root: Seq<char>,
    allow: Option<Seq<Seq<char>>>,
    deny: Option<Seq<Seq<char>>>,
) -> bool {
    let rest = if under(path, root) {
        below(path, root)
    } else {
        Seq::empty()
    };
    ||| rest.len() == 0
    ||| {
        &&& match deny {
            Some(patterns) => !matches_any(patterns, rest),
            None => true,
        }
        &&& match allow {
            Some(patterns) => matches_any(patterns, rest),
            None => true,
        }
    }
}

/// Whether `path` passes the patterns for what is under `root`.
pub fn path_allowed(
    path: &str,
    root: &str,
    allow: &Option<globset::GlobSet>,
    deny: &Option<globset::GlobSet>,
) -> (allowed: bool)
    ensures
        allowed == passes_globs(path@, root@, set_view(*allow), set_view(*deny)),
{
    let rest: String = match strip_prefix(path, root) {
        Some(rest) => rest,
        None => String::new(),
    };
    proof {
        reveal_strlit("");
        if rest@.len() == 0 {
            assert(rest@ =~= ""@);
        }
    }
    if same_text(rest.as_str(), "") {
        return true;
    }
    match deny {
        Some(set) => if is_match(set, rest.as_str()) {
            return false;
        },
        None => {},
    }
    match allow {
        Some(set) => is_match(set, rest.as_str()),
        None => true,
    }
}

/// The position of the first root that a path is under, or the number of roots.
pub open spec fn first_root(roots: Seq<RootFilterView>, path: Seq<char>) -> int
    decreases roots.len(),
{
    if roots.len() == 0 || under(path, roots[0].path) {
        0
    } else {
        1 + first_root(roots.drop_first(), path)
    }
}

/// Whether a language is among those that are allowed, where any are, and not
/// among those that are denied.
pub open spec fn passes_languages(
    language: Seq<char>,
    allow: Seq<Seq<char>>,
    deny: Seq<Seq<char>>,
) -> bool {
    (allow.len() == 0 || allow.contains(language)) && !deny.contains(language)
}

/// Whether a path passes the patterns of a root: none that denies matches, and one
/// of each list that allows.
pub open spec fn passes_root(path: Seq<char>, root: RootFilterView) -> bool {
    &&& passes_globs(path, root.path, None, pattern_set(root.deny))
    &&& forall|i: int|
        0 <= i < root.allow.len() ==> passes_globs(
            path,
            root.path,
            pattern_set(#[trigger] root.allow[i]),
            None,
        )
}

/// Whether a path lies under a root, where there are any, and passes the patterns
/// of the first root that it is under and those of the filter.
pub open spec fn passes_roots(path: Seq<char>, filter: FilterView) -> bool {
    let roots = filter.allowed_roots;
    let at = first_root(roots, path);
    roots.len() == 0 || (at < roots.len() && passes_root(path, roots[at]) && passes_globs(
        path,
        roots[at].path,
        pattern_set(filter.allow_globs),
        pattern_set(filter.deny_globs),
    ))
}

/// Whether a search may give back a chunk.
pub open spec fn passes(found: ResultView, filter: FilterView) -> bool {
    passes_roots(found.chunk.path, filter) && passes_languages(
        found.chunk.language,
        filter.allow_languages,
        filter.deny_languages,
    )
}

/// The chunks before row `before` that a search may give back.
pub open spec fn kept_rows(columns: FoundColumns, before: int, filter: FilterView) -> Seq<
    ResultView,
>
    decreases before,
{
    if before <= 0 {
        Seq::empty()
    } else {
        let init = kept_rows(columns, before - 1, filter);
        let row = found_row(columns, before - 1);
        if passes(row, filter) {
            init.push(row)
        } else {
            init
        }
    }
}

/// The chunks of a batch that a search may give back. The columns have to be
/// there.
pub open spec fn kept(columns: FoundColumns, filter: FilterView) -> Result<
    Seq<ResultView>,
    Seq<char>,
> {
    match columns_fault(columns) {
        Some(message) => Err(message),
        None => Ok(kept_rows(columns, columns.rows as int, filter)),
    }
}

/// Whether a language is allowed.
pub fn language_allowed(language: &str, allow: &Vec<String>, deny: &Vec<String>) -> (allowed: bool)
    ensures
        allowed == passes_languages(language@, texts(allow@), texts(deny@)),
{
    proof {
        lemma_lists_text(allow@, language@);
        lemma_lists_text(deny@, language@);
    }
    if allow.len() > 0 && !contains_text(allow, language) {
        return false;
    }
    !contains_text(deny, language)
}

/// A list of strings holds a text where its texts do.
pub proof fn lemma_lists_text(list: Seq<String>, text: Seq<char>)
    ensures
        lists_text(list, text) == texts(list).contains(text),
{
    let all = texts(list);
    if lists_text(list, text) {
        let i = choose|i: int| 0 <= i < list.len() && (#[trigger] list[i])@ == text;
        assert(all[i] == text);
    }
    if all.contains(text) {
        let i = choose|i: int| 0 <= i < all.len() && all[i] == text;
        assert(list[i]@ == text);
    }
}

/// The patterns of a root, ready for matching.
#[derive(Clone, Debug)]
pub struct RootSets {
    pub allow: Vec<Option<globset::GlobSet>>,
    pub deny: Option<globset::GlobSet>,
}

/// The patterns of a filter, ready for matching.
#[derive(Clone, Debug)]
pub struct FilterSets {
    pub roots: Vec<RootSets>,
    pub allow: Option<globset::GlobSet>,
    pub deny: Option<globset::GlobSet>,
}

impl RootSets {
    /// Whether these are the patterns of a root.
    pub open spec fn made_of(self, root: RootFilterView) -> bool {
        &&& set_view(self.deny) == pattern_set(root.deny)
        &&& self.allow@.len() == root.allow.len()
        &&& forall|i: int|
            0 <= i < root.allow.len() ==> set_view(self.allow@[i]) == pattern_set(
                #[trigger] root.allow[i],
            )
    }
}

impl FilterSets {
    /// Whether these are the patterns of a filter.
    pub open spec fn made_of(self, filter: FilterView) -> bool {
        &&& set_view(self.allow) == pattern_set(filter.allow_globs)
        &&& set_view(self.deny) == pattern_set(filter.deny_globs)
        &&& self.roots@.len() == filter.allowed_roots.len()
        &&& forall|i: int|
            0 <= i < filter.allowed_roots.len() ==> self.roots@[i].made_of(
                #[trigger] filter.allowed_roots[i],
            )
    }
}

/// Whether a path passes the patterns of a root.
fn root_allows(path: &str, root: &RootFilter, sets: &RootSets) -> (allowed: bool)
    requires
        sets.made_of(root@),
    ensures
        allowed == passes_root(path@, root@),
{
    if !path_allowed(path, root.path.as_str(), &None, &sets.deny) {
        return false;
    }
    let mut i: usize = 0;
    while i < sets.allow.len()
        invariant
            i <= sets.allow@.len(),
            sets.made_of(root@),
            passes_globs(path@, root@.path, None, pattern_set(root@.deny)),
            forall|k: int|
                0 <= k < i ==> passes_globs(
                    path@,
                    root@.path,
                    pattern_set(#[trigger] root@.allow[k]),
                    None,
                ),
        decreases sets.allow@.len() - i,
    {
        assert(set_view(sets.allow@[i as int]) == pattern_set(root@.allow[i as int]));
        if !path_allowed(path, root.path.as_str(), &sets.allow[i], &None) {
            return false;
        }
        i = i + 1;
    }
    true
}

/// Whether a path passes the roots and the patterns of a filter.
fn roots_allow(path: &str, filter: &SearchFilter, sets: &FilterSets) -> (allowed: bool)
    requires
        sets.made_of(filter@),
    ensures
        allowed == passes_roots(path@, filter@),
{
    let roots = &filter.allowed_roots;
    let ghost all = views(roots@);
    if roots.len() == 0 {
        return true;
    }
    let mut i: usize = 0;
    assert(all.skip(0) =~= all);
    while i < roots.len()
        invariant
            i <= roots@.len(),
            *roots == filter.allowed_roots,
            all == views(roots@),
            roots@.len() > 0,
            sets.made_of(filter@),
            first_root(all, path@) == i + first_root(all.skip(i as int), path@),
        decreases roots@.len() - i,
    {
        proof {
            assert(all.skip(i as int)[0] == roots@[i as int]@);
            assert(all.skip(i as int).drop_first() =~= all.skip(i + 1));
            assert(filter@.allowed_roots[i as int] == roots@[i as int]@);
        }
        if strip_prefix(path, roots[i].path.as_str()).is_some() {
            return root_allows(path, &roots[i], &sets.roots[i]) && path_allowed(
                path,
                roots[i].path.as_str(),
                &sets.allow,
                &sets.deny,
            );
        }
        i = i + 1;
    }
    false
}

/// Keeps the chunks of a batch that a search may give back.
pub fn keep_rows(
    columns: &FoundColumns,
    filter: &SearchFilter,
    sets: &FilterSets,
) -> (results: Result<Vec<SearchResult>, String>)
    requires
        columns.valid(),
        sets.made_of(filter@),
    ensures
        match results {
            Ok(results) => kept(*columns, filter@) == Ok::<Seq<ResultView>, Seq<char>>(
                views(results@),
            ),
            Err(message) => kept(*columns, filter@) == Err::<Seq<ResultView>, Seq<char>>(message@),
        },
{
    match find_columns_fault(columns) {
        Some(message) => {
            return Err(message);
        },
        None => {},
    }
    let mut results: Vec<SearchResult> = Vec::new();
    match (
        &columns.chunk_id,
        &columns.file_path,
        &columns.language,
        &columns.node_kind,
        &columns.start_line,
        &columns.end_line,
        &columns.parent_context,
        &columns.text,
    ) {
        (
            Column::Values(ids),
            Column::Values(paths),
            Column::Values(languages),
            Column::Values(kinds),
            Column::Values(starts),
            Column::Values(ends),
            Column::Values(contexts),
            Column::Values(bodies),
        ) => {
            let mut row: usize = 0;
            assert(views(results@) =~= Seq::<ResultView>::empty());
            while row < columns.rows
                invariant
                    row <= columns.rows,
                    columns.valid(),
                    sets.made_of(filter@),
                    columns.chunk_id == Column::Values(*ids),
                    columns.file_path == Column::Values(*paths),
                    columns.language == Column::Values(*languages),
                    columns.node_kind == Column::Values(*kinds),
                    columns.start_line == Column::Values(*starts),
                    columns.end_line == Column::Values(*ends),
                    columns.parent_context == Column::Values(*contexts),
                    columns.text == Column::Values(*bodies),
                    views(results@) == kept_rows(*columns, row as int, filter@),
                decreases columns.rows - row,
            {
                let path = &paths[row];
                let language = &languages[row];
                if roots_allow(path.as_str(), filter, sets) && language_allowed(
                    language.as_str(),
                    &filter.allow_languages,
                    &filter.deny_languages,
                ) {
                    let score: Json = if row < columns.scores.len() {
                        copy_json(&columns.scores[row])
                    } else {
                        Json::Number(JsonNumber::Real("0.0".to_owned()))
                    };
                    let found = SearchResult {
                        chunk: Chunk {
                            id: ids[row].clone(),
                            text: bodies[row].clone(),
                            metadata: ChunkMetadata {
                                file_path: path.clone(),
                                language: language.clone(),
                                node_kind: kinds[row].clone(),
                                start_line: starts[row] as usize,
                                end_line: ends[row] as usize,
                                parent_context: copy_text(&contexts[row]),
                            },
                        },
                        score,
                    };
                    proof {
                        assert(found@ =~= found_row(*columns, row as int));
                        assert(views(results@.push(found)) =~= views(results@).push(found@));
                    }
                    results.push(found);
                }
                row = row + 1;
            }
        },
        _ => {},
    }
    Ok(results)
}

/// What is wrong with some patterns, if anything.
pub open spec fn patterns_fault(patterns: Seq<Seq<char>>) -> Option<Seq<char>> {
    match glob_set(patterns) {
        Err(message) => Some(message),
        Ok(_) => None,
    }
}

/// What is wrong with the first list of patterns that cannot be read, if there is
/// one.
pub open spec fn lists_fault(lists: Seq<Seq<Seq<char>>>) -> Option<Seq<char>>
    decreases lists.len(),
{
    if lists.len() == 0 {
        None
    } else {
        match patterns_fault(lists[0]) {
            Some(message) => Some(message),
            None => lists_fault(lists.drop_first()),
        }
    }
}

/// What is wrong with the patterns of the first root whose patterns cannot be
/// read, if there is one.
pub open spec fn roots_fault(roots: Seq<RootFilterView>) -> Option<Seq<char>>
    decreases roots.len(),
{
    if roots.len() == 0 {
        None
    } else {
        match (patterns_fault(roots[0].deny), lists_fault(roots[0].allow)) {
            (Some(message), _) => Some(message),
            (_, Some(message)) => Some(message),
            (None, None) => roots_fault(roots.drop_first()),
        }
    }
}

/// What is wrong with the patterns of a filter, if anything.
pub open spec fn filter_fault(filter: FilterView) -> Option<Seq<char>> {
    match (
        patterns_fault(filter.allow_globs),
        patterns_fault(filter.deny_globs),
        roots_fault(filter.allowed_roots),
    ) {
        (Some(message), _, _) => Some(message),
        (_, Some(message), _) => Some(message),
        (_, _, fault) => fault,
    }
}

/// Makes the patterns of lists ready for matching.
fn build_lists(lists: &Vec<Vec<String>>) -> (sets: Result<Vec<Option<globset::GlobSet>>, String>)
    ensures
        match sets {
            Ok(sets) => {
                &&& lists_fault(text_lists(lists@)) is None
                &&& sets@.len() == lists@.len()
                &&& forall|i: int|
                    0 <= i < lists@.len() ==> set_view(sets@[i]) == pattern_set(
                        #[trigger] text_lists(lists@)[i],
                    )
            },
            Err(message) => lists_fault(text_lists(lists@)) == Some(message@),
        },
{
    let ghost all = text_lists(lists@);
    let mut sets: Vec<Option<globset::GlobSet>> = Vec::new();
    let mut i: usize = 0;
    assert(all.skip(0) =~= all);
    while i < lists.len()
        invariant
            i <= lists@.len(),
            all == text_lists(lists@),
            sets@.len() == i,
            lists_fault(all) == lists_fault(all.skip(i as int)),
            forall|k: int|
                0 <= k < i ==> set_view(sets@[k]) == pattern_set(#[trigger] all[k]),
        decreases lists@.len() - i,
    {
        proof {
            assert(all.skip(i as int)[0] == texts(lists@[i as int]@));
            assert(all.skip(i as int).drop_first() =~= all.skip(i + 1));
        }
        match build_glob_set(&lists[i]) {
            Ok(set) => {
                sets.push(set);
            },
            Err(message) => {
                return Err(message);
            },
        }
        i = i + 1;
    }
    Ok(sets)
}

/// Makes the patterns of a filter ready for matching.
pub fn build_filter_sets(filter: &SearchFilter) -> (sets: Result<FilterSets, String>)
    ensures
        match sets {
            Ok(sets) => filter_fault(filter@) is None && sets.made_of(filter@),
            Err(message) => filter_fault(filter@) == Some(message@),
        },
{
    let allow = match build_glob_set(&filter.allow_globs) {
        Ok(set) => set,
        Err(message) => {
            return Err(message);
        },
    };
    let deny = match build_glob_set(&filter.deny_globs) {
        Ok(set) => set,
        Err(message) => {
            return Err(message);
        },
    };
    let ghost all = filter@.allowed_roots;
    let mut roots: Vec<RootSets> = Vec::new();
    let mut i: usize = 0;
    assert(all.skip(0) =~= all);
    while i < filter.allowed_roots.len()
        invariant
            i <= filter.allowed_roots@.len(),
            all == views(filter.allowed_roots@),
            all == filter@.allowed_roots,
            roots@.len() == i,
            patterns_fault(filter@.allow_globs) is None,
            patterns_fault(filter@.deny_globs) is None,
            roots_fault(all) == roots_fault(all.skip(i as int)),
            forall|k: int| 0 <= k < i ==> roots@[k].made_of(#[trigger] all[k]),
        decreases filter.allowed_roots@.len() - i,
    {
        let root = &filter.allowed_roots[i];
        proof {
            assert(all.skip(i as int)[0] == root@);
            assert(all.skip(i as int).drop_first() =~= all.skip(i + 1));
        }
        let own = match build_glob_set(&root.deny) {
            Ok(set) => set,
            Err(message) => {
                return Err(message);
            },
        };
        let lists = match build_lists(&root.allow) {
            Ok(sets) => sets,
            Err(message) => {
                return Err(message);
            },
        };
        let sets = RootSets { allow: lists, deny: own };
        assert(sets.made_of(root@));
        roots.push(sets);
        i = i + 1;
    }
    Ok(FilterSets { roots, allow, deny })
}

/// The chunks of batches, one behind the other, that a search may give back.
pub open spec fn kept_all(batches: Seq<FoundColumns>, filter: FilterView) -> Result<
    Seq<ResultView>,
    Seq<char>,
>
    decreases batches.len(),
{
    if batches.len() == 0 {
        Ok(Seq::empty())
    } else {
        match (kept_all(batches.drop_last(), filter), kept(batches.last(), filter)) {
            (Err(message), _) => Err(message),
            (_, Err(message)) => Err(message),
            (Ok(init), Ok(last)) => Ok(init + last),
        }
    }
}

/// What a search gives back of the batches that the store found.
pub open spec fn search_results(batches: Seq<FoundColumns>, filter: FilterView) -> Result<
    Seq<ResultView>,
    Seq<char>,
> {
    match filter_fault(filter) {
        Some(message) => Err(message),
        None => kept_all(batches, filter),
    }
}

/// A failure with the first batches is a failure with all of them.
proof fn lemma_kept_all_err(batches: Seq<FoundColumns>, filter: FilterView, fewer: int)
    requires
        0 <= fewer <= batches.len(),
        kept_all(batches.take(fewer), filter) is Err,
    ensures
        kept_all(batches, filter) == kept_all(batches.take(fewer), filter),
    decreases batches.len() - fewer,
{
    if fewer < batches.len() {
        assert(batches.take(fewer + 1).drop_last() =~= batches.take(fewer));
        lemma_kept_all_err(batches, filter, fewer + 1);
    } else {
        assert(batches.take(fewer) =~= batches);
    }
}

/// Gives back the chunks that a filter lets pass, of the batches that the store
/// found.
pub fn search(batches: &Vec<FoundColumns>, filter: &SearchFilter) -> (results: Result<
    Vec<SearchResult>,
    String,
>)
    requires
        forall|i: int| 0 <= i < batches@.len() ==> (#[trigger] batches@[i]).valid(),
    ensures
        match results {
            Ok(results) => search_results(batches@, filter@) == Ok::<Seq<ResultView>, Seq<char>>(
                views(results@),
            ),
            Err(message) => search_results(batches@, filter@) == Err::<Seq<ResultView>, Seq<char>>(
                message@,
            ),
        },
{
    let sets = match build_filter_sets(filter) {
        Ok(sets) => sets,
        Err(message) => {
            return Err(message);
        },
    };
    let mut results: Vec<SearchResult> = Vec::new();
    let mut i: usize = 0;
    assert(views(results@) =~= Seq::<ResultView>::empty());
    while i < batches.len()
        invariant
            i <= batches@.len(),
            forall|i: int| 0 <= i < batches@.len() ==> (#[trigger] batches@[i]).valid(),
            filter_fault(filter@) is None,
            sets.made_of(filter@),
            kept_all(batches@.take(i as int), filter@) == Ok::<Seq<ResultView>, Seq<char>>(
                views(results@),
            ),
        decreases batches@.len() - i,
    {
        assert(batches@.take(i + 1).drop_last() =~= batches@.take(i as int));
        match keep_rows(&batches[i], filter, &sets) {
            Ok(more) => {
                let mut more = more;
                let ghost before = results@;
                let ghost added = more@;
                results.append(&mut more);
                assert(views(results@) =~= views(before) + views(added));
            },
            Err(message) => {
                proof {
                    lemma_kept_all_err(batches@, filter@, i + 1);
                }
                return Err(message);
            },
        }
        i = i + 1;
    }
    assert(batches@.take(i as int) =~= batches@);
    Ok(results)
}

// ---------------------------------------------------------------------------
// Reading sources
// ---------------------------------------------------------------------------

/// The stored hash of a source, in the first batch that has a row. Each batch
/// has to have the column.
pub open spec fn stored_hash(batches: Seq<Column<String>>) -> Result<Option<Seq<char>>, Seq<char>>
    decreases batches.len(),
{
    if batches.len() == 0 {
        Ok(None)
    } else {
        match batches[0] {
            Column::Values(values) => if values@.len() > 0 {
                Ok(Some(values@[0]@))
            } else {
                stored_hash(batches.drop_first())
            },
            _ => Err(column_fault(batches[0], "content_hash"@)->0),
        }
    }
}

/// Reads the stored hash of a source from the batches of a query.
pub fn read_source_hash(batches: &Vec<Column<String>>) -> (hash: Result<Option<String>, String>)
    ensures
        match hash {
            Ok(hash) => stored_hash(batches@) == Ok::<Option<Seq<char>>, Seq<char>>(
                text_view(hash),
            ),
            Err(message) => stored_hash(batches@) == Err::<Option<Seq<char>>, Seq<char>>(message@),
        },
{
    let mut i: usize = 0;
    assert(batches@.skip(0) =~= batches@);
    while i < batches.len()
        invariant
            i <= batches@.len(),
            stored_hash(batches@) == stored_hash(batches@.skip(i as int)),
        decreases batches@.len() - i,
    {
        assert(batches@.skip(i as int)[0] == batches@[i as int]);
        assert(batches@.skip(i as int).drop_first() =~= batches@.skip(i + 1));
        match find_column_fault(&batches[i], "content_hash") {
            Some(message) => {
                return Err(message);
            },
            None => {},
        }
        match &batches[i] {
            Column::Values(values) => if values.len() > 0 {
                return Ok(Some(values[0].clone()));
            },
            _ => {},
        }
        i = i + 1;
    }
    Ok(None)
}

/// The ids in the batches of a query, one behind the other. Each batch has to
/// have the column.
pub open spec fn stored_ids(batches: Seq<Column<String>>) -> Result<Seq<Seq<char>>, Seq<char>>
    decreases batches.len(),
{
    if batches.len() == 0 {
        Ok(Seq::empty())
    } else {
        match (stored_ids(batches.drop_last()), batches.last()) {
            (Err(message), _) => Err(message),
            (Ok(init), Column::Values(values)) => Ok(init + texts(values@)),
            (Ok(_), _) => Err(column_fault(batches.last(), "source_id"@)->0),
        }
    }
}

/// A failure with the first batches is a failure with all of them.
proof fn lemma_stored_ids_err(batches: Seq<Column<String>>, fewer: int)
    requires
        0 <= fewer <= batches.len(),
        stored_ids(batches.take(fewer)) is Err,
    ensures
        stored_ids(batches) == stored_ids(batches.take(fewer)),
    decreases batches.len() - fewer,
{
    if fewer < batches.len() {
        assert(batches.take(fewer + 1).drop_last() =~= batches.take(fewer));
        lemma_stored_ids_err(batches, fewer + 1);
    } else {
        assert(batches.take(fewer) =~= batches);
    }
}

/// Reads the ids of sources from the batches of a query.
pub fn read_source_ids(batches: &Vec<Column<String>>) -> (ids: Result<Vec<String>, String>)
    ensures
        match ids {
            Ok(ids) => stored_ids(batches@) == Ok::<Seq<Seq<char>>, Seq<char>>(texts(ids@)),
            Err(message) => stored_ids(batches@) == Err::<Seq<Seq<char>>, Seq<char>>(message@),
        },
{
    let mut ids: Vec<String> = Vec::new();
    let mut i: usize = 0;
    assert(texts(ids@) =~= Seq::<Seq<char>>::empty());
    while i < batches.len()
        invariant
            i <= batches@.len(),
            stored_ids(batches@.take(i as int)) == Ok::<Seq<Seq<char>>, Seq<char>>(texts(ids@)),
        decreases batches@.len() - i,
    {
        assert(batches@.take(i + 1).drop_last() =~= batches@.take(i as int));
        match find_column_fault(&batches[i], "source_id") {
            Some(message) => {
                proof {
                    lemma_stored_ids_err(batches@, i + 1);
                }
                return Err(message);
            },
            None => {},
        }
        match &batches[i] {
            Column::Values(values) => {
                let mut more = crate::text::clone_texts(values);
                let ghost before = ids@;
                ids.append(&mut more);
                assert(texts(ids@) =~= texts(before) + texts(values@));
            },
            _ => {},
        }
        i = i + 1;
    }
    assert(batches@.take(i as int) =~= batches@);
    Ok(ids)
}

} // verus!
