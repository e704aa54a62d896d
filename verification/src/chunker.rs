//! Cuts a source text into chunks.
use crate::context::{compute_context_path, context_path, path_view};
use crate::ids::{new_chunk_id, random_id};
use crate::lines::{byte_len, bytes_of, can_slice, cut_out, range_ok, slice_source};
use crate::nodes::{
    chunk_nodes, distinct_spans, extract_nodes, nested, node_order, structural_spans, CaptureView,
    NodeSpan,
};
use crate::sorting::{lemma_in_order, ranking, views};
use crate::span_laws::law_text_is_chunked;
use crate::spans::{
    apply_overlap, fallback_chunk_spans, fallback_spans, overlapped, spans_of, ChunkSpan,
    Span,
};
use crate::syntax::{captures_of, parsed_from, query_captures};
use crate::text::{decimal, push_decimal};
use crate::types::{copy_text, text_view, Chunk, ChunkMetadata, ChunkView};
use vstd::prelude::*;
use vstd::utf8::*;

verus! {

// ---------------------------------------------------------------------------
// Headers
// ---------------------------------------------------------------------------

/// The line of a header that tells the context, if there is one.
pub open spec fn context_line(context: Option<Seq<char>>) -> Seq<char> {
    match context {
        Some(context) => "PATH: "@ + context + "\n"@,
        None => Seq::empty(),
    }
}

/// The header of a chunk: where it comes from, line by line, and an empty line.
pub open spec fn chunk_header(
    path: Seq<char>,
    language: Seq<char>,
    span: Span,
    context: Option<Seq<char>>,
) -> Seq<char> {
    "FILE: "@ + path + "\n"@ + "LANG: "@ + language + "\n"@ + "KIND: "@ + span.kind + "\n"@
        + "LINES: "@ + decimal(span.first_line as nat) + "-"@ + decimal(span.last_line as nat)
        + "\n"@ + context_line(context) + "\n"@
}

/// Writes the header of a chunk.
pub fn build_chunk_header(
    file_path: &str,
    language: &str,
    span: &ChunkSpan,
    context: &Option<String>,
) -> (header: String)
    ensures
        header@ == chunk_header(file_path@, language@, span@, text_view(*context)),
{
    let mut header: String = "FILE: ".to_owned();
    header.push_str(file_path);
    header.push_str("\n");
    header.push_str("LANG: ");
    header.push_str(language);
    header.push_str("\n");
    header.push_str("KIND: ");
    header.push_str(span.node_kind.as_str());
    header.push_str("\n");
    header.push_str("LINES: ");
    push_decimal(&mut header, span.start_line as u64);
    header.push_str("-");
    push_decimal(&mut header, span.end_line as u64);
    header.push_str("\n");
    let ghost lines = header@;
    match context {
        Some(path) => {
            header.push_str("PATH: ");
            header.push_str(path.as_str());
            header.push_str("\n");
            assert(header@ =~= lines + ("PATH: "@ + path@ + "\n"@));
        },
        None => {
            assert(header@ =~= lines + Seq::<char>::empty());
        },
    }
    header.push_str("\n");
    header
}

// ---------------------------------------------------------------------------
// Chunks of spans
// ---------------------------------------------------------------------------

/// The chunk of a span. Nothing where the span, or a name of its context,
/// cannot be cut out of the text.
pub open spec fn piece(
    path: Seq<char>,
    language: Seq<char>,
    bytes: Seq<u8>,
    span: Span,
    context: Option<Option<Seq<char>>>,
) -> Option<ChunkView> {
    match context {
        Some(context) => if range_ok(bytes, span.start, span.end) {
            Some(
                ChunkView {
                    text: chunk_header(path, language, span, context) + decode_utf8(
                        cut_out(bytes, span.start, span.end),
                    ),
                    path,
                    language,
                    kind: span.kind,
                    first_line: span.first_line,
                    last_line: span.last_line,
                    context,
                },
            )
        } else {
            None
        },
        None => None,
    }
}

/// The chunks of spans, one for each. Nothing where there is nothing of one.
pub open spec fn pieces(
    path: Seq<char>,
    language: Seq<char>,
    bytes: Seq<u8>,
    spans: Seq<Span>,
    contexts: Seq<Option<Option<Seq<char>>>>,
) -> Option<Seq<ChunkView>> {
    if forall|i: int|
        0 <= i < spans.len() ==> piece(path, language, bytes, #[trigger] spans[i], contexts[i]) is Some {
        Some(
            Seq::new(
                spans.len(),
                |i: int| piece(path, language, bytes, spans[i], contexts[i])->0,
            ),
        )
    } else {
        None
    }
}

/// Whether each chunk has an id of the form of a random one.
pub open spec fn ids_ok(chunks: Seq<Chunk>) -> bool {
    forall|i: int| 0 <= i < chunks.len() ==> random_id((#[trigger] chunks[i]).id@)
}

/// Contexts as mathematical values.
pub open spec fn contexts_view(contexts: Seq<Option<Option<String>>>) -> Seq<
    Option<Option<Seq<char>>>,
> {
    Seq::new(contexts.len(), |i: int| path_view(contexts[i]))
}

/// Whether `chunks` are what `planned` tells, each with an id of its own.
pub open spec fn are_chunks(chunks: Option<Vec<Chunk>>, planned: Option<Seq<ChunkView>>) -> bool {
    match chunks {
        Some(chunks) => planned == Some(views(chunks@)) && ids_ok(chunks@),
        None => planned is None,
    }
}

/// Makes a chunk of each span, with the context at its place. Gives nothing
/// where a span cannot be cut out of the text or a context could not be read.
pub fn make_chunks(
    file_path: &str,
    language: &str,
    source: &str,
    spans: &Vec<ChunkSpan>,
    contexts: &Vec<Option<Option<String>>>,
) -> (chunks: Option<Vec<Chunk>>)
    requires
        spans@.len() == contexts@.len(),
    ensures
        are_chunks(
            chunks,
            pieces(
                file_path@,
                language@,
                bytes_of(source@),
                spans_of(spans@),
                contexts_view(contexts@),
            ),
        ),
{
    let ghost bytes = bytes_of(source@);
    let ghost all = spans_of(spans@);
    let ghost told = contexts_view(contexts@);
    let mut chunks: Vec<Chunk> = Vec::new();
    let mut i: usize = 0;
    while i < spans.len()
        invariant
            i <= spans@.len() == contexts@.len(),
            bytes == bytes_of(source@),
            all == spans_of(spans@),
            told == contexts_view(contexts@),
            chunks@.len() == i,
            ids_ok(chunks@),
            forall|k: int|
                0 <= k < i ==> piece(file_path@, language@, bytes, #[trigger] all[k], told[k]) == Some(
                    chunks@[k]@,
                ),
        decreases spans@.len() - i,
    {
        let span = &spans[i];
        assert(all[i as int] == span@);
        assert(told[i as int] == path_view(contexts@[i as int]));
        match &contexts[i] {
            None => {
                assert(piece(file_path@, language@, bytes, all[i as int], told[i as int]) is None);
                return None;
            },
            Some(context) => {
                if !can_slice(source, span.start_byte, span.end_byte) {
                    assert(piece(file_path@, language@, bytes, all[i as int], told[i as int]) is None);
                    return None;
                }
                let mut text = build_chunk_header(file_path, language, span, context);
                let body = slice_source(source, span.start_byte, span.end_byte);
                text.push_str(body.as_str());
                let chunk = Chunk {
                    id: new_chunk_id(),
                    text,
                    metadata: ChunkMetadata {
                        file_path: file_path.to_owned(),
                        language: language.to_owned(),
                        node_kind: span.node_kind.clone(),
                        start_line: span.start_line,
                        end_line: span.end_line,
                        parent_context: copy_text(context),
                    },
                };
                chunks.push(chunk);
            },
        }
        i = i + 1;
    }
    proof {
        let planned = pieces(file_path@, language@, bytes, all, told);
        assert(planned is Some);
        assert(planned->0 =~= views(chunks@));
    }
    Some(chunks)
}

// ---------------------------------------------------------------------------
// By lines
// ---------------------------------------------------------------------------

/// The spans of a text that is cut by lines.
pub open spec fn fallback_plan(bytes: Seq<u8>, max: int, overlap: int) -> Seq<Span> {
    overlapped(
        fallback_spans(bytes, 0, bytes.len() as int, 1, max, "file"@),
        bytes,
        overlap,
        max,
    )
}

/// No context for any of `count` spans.
pub open spec fn no_contexts(count: nat) -> Seq<Option<Option<Seq<char>>>> {
    Seq::new(count, |i: int| Some(None))
}

/// The chunks of a text that is cut by lines. There is something for every text.
pub open spec fn fallback_pieces(
    path: Seq<char>,
    language: Seq<char>,
    text: Seq<char>,
    max: int,
    overlap: int,
) -> Option<Seq<ChunkView>> {
    let bytes = bytes_of(text);
    let spans = fallback_plan(bytes, max, overlap);
    pieces(path, language, bytes, spans, no_contexts(spans.len()))
}

/// Cuts a text into chunks by lines.
pub fn fallback_chunk(
    file_path: &str,
    language: &str,
    text: &str,
    max_tokens: usize,
    overlap_tokens: usize,
) -> (chunks: Vec<Chunk>)
    ensures
        fallback_pieces(
            file_path@,
            language@,
            text@,
            max_tokens as int,
            overlap_tokens as int,
        ) == Some(views(chunks@)),
        ids_ok(chunks@),
{
    let ghost bytes = bytes_of(text@);
    proof {
        encode_utf8_valid_utf8(text@);
        is_char_boundary_start_end_of_seq(bytes);
        law_text_is_chunked(
            file_path@,
            language@,
            text@,
            max_tokens as int,
            overlap_tokens as int,
        );
    }
    let spans = match fallback_chunk_spans(text, 0, byte_len(text), 1, max_tokens, "file") {
        Some(spans) => apply_overlap(spans, text, overlap_tokens, max_tokens),
        None => Vec::new(),
    };
    let mut contexts: Vec<Option<Option<String>>> = Vec::new();
    let mut i: usize = 0;
    while i < spans.len()
        invariant
            i <= spans@.len(),
            contexts_view(contexts@) == no_contexts(i as nat),
            contexts@.len() == i,
        decreases spans@.len() - i,
    {
        let ghost before = contexts_view(contexts@);
        contexts.push(Some(None));
        i = i + 1;
        assert(contexts_view(contexts@) =~= before.push(Some(None)));
        assert(contexts_view(contexts@) =~= no_contexts(i as nat));
    }
    match make_chunks(file_path, language, text, &spans, &contexts) {
        Some(chunks) => chunks,
        None => Vec::new(),
    }
}

// ---------------------------------------------------------------------------
// By structure
// ---------------------------------------------------------------------------

/// The spans of a text that is cut along its structural nodes. Nothing where the
/// lines of a node cannot be cut out.
pub open spec fn structural_plan(
    nodes: Seq<Span>,
    bytes: Seq<u8>,
    max: int,
    overlap: int,
) -> Option<Seq<Span>> {
    match structural_spans(nodes, bytes, max) {
        Some(spans) => Some(overlapped(spans, bytes, overlap, max)),
        None => None,
    }
}

/// The contexts of spans in a tree.
pub open spec fn tree_contexts(
    language: Seq<char>,
    tree: tree_sitter::Tree,
    bytes: Seq<u8>,
    spans: Seq<Span>,
) -> Seq<Option<Option<Seq<char>>>> {
    Seq::new(spans.len(), |i: int| context_path(language, tree, bytes, spans[i]))
}

/// The chunks of a text: along its structural nodes where the query captures
/// any, by lines where it does not. Nothing where a node, or a name of a context,
/// cannot be cut out of the text.
pub open spec fn structural_pieces(
    path: Seq<char>,
    language: Seq<char>,
    source: Seq<char>,
    tree: tree_sitter::Tree,
    captures: Seq<CaptureView>,
    max: int,
    overlap: int,
) -> Option<Seq<ChunkView>> {
    let bytes = bytes_of(source);
    if distinct_spans(captures).len() == 0 {
        fallback_pieces(path, language, source, max, overlap)
    } else {
        match structural_plan(node_order(captures), bytes, max, overlap) {
            Some(spans) => pieces(
                path,
                language,
                bytes,
                spans,
                tree_contexts(language, tree, bytes, spans),
            ),
            None => None,
        }
    }
}

/// The spans of a text that is cut along its structural nodes. Gives nothing
/// where the lines of a node cannot be cut out.
pub fn plan_structure(
    source: &str,
    nodes: &Vec<NodeSpan>,
    max_tokens: usize,
    overlap_tokens: usize,
) -> (spans: Option<Vec<ChunkSpan>>)
    requires
        nested(nodes@),
    ensures
        match spans {
            Some(spans) => structural_plan(
                views(nodes@),
                bytes_of(source@),
                max_tokens as int,
                overlap_tokens as int,
            ) == Some(spans_of(spans@)),
            None => structural_plan(
                views(nodes@),
                bytes_of(source@),
                max_tokens as int,
                overlap_tokens as int,
            ) is None,
        },
{
    match chunk_nodes(nodes, source, max_tokens) {
        Some(spans) => Some(apply_overlap(spans, source, overlap_tokens, max_tokens)),
        None => None,
    }
}

/// Cuts a text into chunks along its structural nodes, or by lines where there
/// are none. Gives nothing where a node starts or ends in the middle of a
/// character and would have to be cut out there.
pub fn try_structural_chunks(
    file_path: &str,
    language: &str,
    source: &str,
    tree: &tree_sitter::Tree,
    query: &tree_sitter::Query,
    max_tokens: usize,
    overlap_tokens: usize,
) -> (chunks: Option<Vec<Chunk>>)
    requires
        parsed_from(*tree) == source@,
    ensures
        are_chunks(
            chunks,
            structural_pieces(
                file_path@,
                language@,
                source@,
                *tree,
                captures_of(source@, *tree, *query),
                max_tokens as int,
                overlap_tokens as int,
            ),
        ),
{
    let captures = query_captures(source, tree, query);
    let ghost told = views(captures@);
    let nodes = extract_nodes(&captures);
    proof {
        lemma_in_order(distinct_spans(told), ranking::<NodeSpan>(false));
        assert(views(nodes@).len() == distinct_spans(told).len());
    }
    if nodes.len() == 0 {
        return Some(fallback_chunk(file_path, language, source, max_tokens, overlap_tokens));
    }
    match plan_structure(source, &nodes, max_tokens, overlap_tokens) {
        Some(spans) => {
            let ghost bytes = bytes_of(source@);
            let ghost all = spans_of(spans@);
            let ghost expected = tree_contexts(language@, *tree, bytes, all);
            let mut contexts: Vec<Option<Option<String>>> = Vec::new();
            let mut i: usize = 0;
            while i < spans.len()
                invariant
                    i <= spans@.len(),
                    bytes == bytes_of(source@),
                    all == spans_of(spans@),
                    expected == tree_contexts(language@, *tree, bytes, all),
                    contexts_view(contexts@) == expected.take(i as int),
                decreases spans@.len() - i,
            {
                let context = compute_context_path(language, tree, source, &spans[i]);
                proof {
                    assert(all[i as int] == spans@[i as int]@);
                    assert(contexts_view(contexts@.push(context)) =~= contexts_view(contexts@).push(
                        path_view(context),
                    ));
                    assert(expected.take(i + 1) =~= expected.take(i as int).push(
                        expected[i as int],
                    ));
                }
                contexts.push(context);
                i = i + 1;
            }
            assert(expected.take(i as int) =~= expected);
            assert(contexts@.len() == contexts_view(contexts@).len());
            make_chunks(file_path, language, source, &spans, &contexts)
        },
        None => None,
    }
}

/// Cuts a text into chunks along its structural nodes, or by lines where there
/// are none.
pub fn structural_chunks(
    file_path: &str,
    language: &str,
    source: &str,
    tree: &tree_sitter::Tree,
    query: &tree_sitter::Query,
    max_tokens: usize,
    overlap_tokens: usize,
) -> (chunks: Vec<Chunk>)
    requires
        parsed_from(*tree) == source@,
        distinct_spans(captures_of(source@, *tree, *query)).len() > 0 ==> structural_pieces(
            file_path@,
            language@,
            source@,
            *tree,
            captures_of(source@, *tree, *query),
            max_tokens as int,
            overlap_tokens as int,
        ) is Some,
    ensures
        structural_pieces(
            file_path@,
            language@,
            source@,
            *tree,
            captures_of(source@, *tree, *query),
            max_tokens as int,
            overlap_tokens as int,
        ) == Some(views(chunks@)),
        ids_ok(chunks@),
{
    proof {
        law_text_is_chunked(
            file_path@,
            language@,
            source@,
            max_tokens as int,
            overlap_tokens as int,
        );
    }
    match try_structural_chunks(
        file_path,
        language,
        source,
        tree,
        query,
        max_tokens,
        overlap_tokens,
    ) {
        Some(chunks) => chunks,
        None => Vec::new(),
    }
}

} // verus!
