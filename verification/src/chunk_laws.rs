//! What the chunks of a text hold and tell, whatever the text.
use crate::chunker::{
    fallback_pieces, fallback_plan, no_contexts, piece, pieces, structural_plan, tree_contexts,
};
use crate::context::context_path;
use crate::cover_laws::held;
use crate::lines::{
    bytes_of, capped, char_start, cut_out, lemma_char_start_near, lemma_line_end, lemma_line_start,
    line_end, line_start, newlines, range_ok,
};
use crate::nodes::{node_order, structural_spans};
use crate::parser::{source_nodes, source_pieces, LoadedView};
use crate::span_laws::{adjoining, law_fallback_covers, law_overlap};
use crate::spans::{
    fallback_spans, fits, lemma_run_end, overlap_bytes, overlapped, packed, piece_end, run_end,
    tokens, Span,
};
use crate::syntax::{captures_of, tree_of};
use vstd::prelude::*;
use vstd::utf8::*;

verus! {

// ---------------------------------------------------------------------------
// Chunks
// ---------------------------------------------------------------------------

/// The chunk of a span holds the bytes of the span and tells where they stand; it
/// can be made where the bytes can be cut out.
pub proof fn law_chunk_of_span(
    path: Seq<char>,
    language: Seq<char>,
    bytes: Seq<u8>,
    span: Span,
    context: Option<Seq<char>>,
)
    requires
        0 <= span.start <= span.end <= bytes.len(),
    ensures
        piece(path, language, bytes, span, None) is None,
        piece(path, language, bytes, span, Some(context)) is Some <==> span.start == span.end || (
        is_char_boundary(bytes, span.start) && is_char_boundary(bytes, span.end)),
        match piece(path, language, bytes, span, Some(context)) {
            Some(chunk) => {
                let body = decode_utf8(bytes.subrange(span.start, span.end));
                &&& chunk.path == path
                &&& chunk.language == language
                &&& chunk.kind == span.kind
                &&& chunk.first_line == span.first_line
                &&& chunk.last_line == span.last_line
                &&& chunk.context == context
                &&& chunk.text.len() >= body.len()
                &&& chunk.text.skip(chunk.text.len() - body.len()) == body
            },
            None => true,
        },
{
    match piece(path, language, bytes, span, Some(context)) {
        Some(chunk) => {
            let body = decode_utf8(bytes.subrange(span.start, span.end));
            if span.start == span.end {
                assert(bytes.subrange(span.start, span.end) =~= cut_out(
                    bytes,
                    span.start,
                    span.end,
                ));
            }
            assert(chunk.text.skip(chunk.text.len() - body.len()) =~= body);
        },
        None => {},
    }
}

/// The chunks of spans stand in the order of the spans, each made of its own span
/// and its own context.
pub proof fn law_chunks_follow_spans(
    path: Seq<char>,
    language: Seq<char>,
    bytes: Seq<u8>,
    spans: Seq<Span>,
    contexts: Seq<Option<Option<Seq<char>>>>,
    i: int,
)
    requires
        pieces(path, language, bytes, spans, contexts) is Some,
        0 <= i < spans.len(),
    ensures
        ({
            let chunks = pieces(path, language, bytes, spans, contexts)->0;
            &&& chunks.len() == spans.len()
            &&& piece(path, language, bytes, spans[i], contexts[i]) == Some(chunks[i])
            &&& chunks[i].path == path
            &&& chunks[i].language == language
            &&& chunks[i].kind == spans[i].kind
            &&& chunks[i].first_line == spans[i].first_line
            &&& chunks[i].last_line == spans[i].last_line
            &&& contexts[i] == Some(chunks[i].context)
        }),
{
    assert(piece(path, language, bytes, spans[i], contexts[i]) is Some);
}

/// A text that is cut by lines is held by its chunks: each byte is in the span of
/// one of them.
pub proof fn law_text_is_held(text: Seq<char>, max: int, overlap: int, at: int)
    requires
        0 <= max,
        0 <= overlap,
        0 <= at < bytes_of(text).len(),
    ensures
        held(at, at + 1, fallback_plan(bytes_of(text), max, overlap)),
{
    let bytes = bytes_of(text);
    let end = bytes.len() as int;
    encode_utf8_valid_utf8(text);
    is_char_boundary_start_end_of_seq(bytes);
    let spans = fallback_spans(bytes, 0, end, 1, max, "file"@);
    assert(range_ok(bytes, 0, end));
    law_fallback_covers(bytes, 0, end, 1, max, "file"@);
    lemma_in_one(spans, 0, end, at);
    let k = choose|k: int|
        0 <= k < spans.len() && (#[trigger] spans[k]).start <= at && at + 1 <= spans[k].end;
    law_overlap(spans, bytes, overlap, max);
    let out = fallback_plan(bytes, max, overlap);
    assert(out[k].start <= at && at + 1 <= out[k].end);
}

/// A byte is in one of the spans that stand one behind the other around it.
proof fn lemma_in_one(spans: Seq<Span>, from: int, to: int, at: int)
    requires
        adjoining(spans, from, to),
        from <= at < to,
    ensures
        held(at, at + 1, spans),
        forall|i: int| 0 <= i < spans.len() ==> from <= (#[trigger] spans[i]).start,
    decreases spans.len(),
{
    if spans.len() > 0 {
        let rest = spans.drop_first();
        if at < spans[0].end {
            assert(spans[0].start <= at && at + 1 <= spans[0].end);
        } else {
            lemma_in_one(rest, spans[0].end, to, at);
            let k = choose|k: int|
                0 <= k < rest.len() && (#[trigger] rest[k]).start <= at && at + 1 <= rest[k].end;
            assert(spans[k + 1] == rest[k]);
        }
        lemma_not_before(spans, from, to);
    }
}

/// Spans that stand one behind the other start no earlier than the first.
proof fn lemma_not_before(spans: Seq<Span>, from: int, to: int)
    requires
        adjoining(spans, from, to),
    ensures
        forall|i: int| 0 <= i < spans.len() ==> from <= (#[trigger] spans[i]).start,
    decreases spans.len(),
{
    if spans.len() > 0 {
        let rest = spans.drop_first();
        lemma_not_before(rest, spans[0].end, to);
        assert forall|i: int| 0 <= i < spans.len() implies from <= (#[trigger] spans[i]).start by {
            if i > 0 {
                assert(spans[i] == rest[i - 1]);
            }
        }
    }
}

// ---------------------------------------------------------------------------
// Overlap
// ---------------------------------------------------------------------------

/// How far chunks reach back: by the bytes of the overlap, which stays below the
/// limit of a chunk where there is one.
pub proof fn law_overlap_bytes(overlap: int, max: int)
    requires
        0 <= overlap,
        0 <= max,
        4 * overlap <= usize::MAX,
        4 * max <= usize::MAX,
    ensures
        max == 0 || overlap < max ==> overlap_bytes(overlap, max) == 4 * overlap,
        0 < max <= overlap ==> overlap_bytes(overlap, max) == 4 * (max - 1),
{
}

/// Each span but the first reaches back by the overlap at least, or to the start of
/// the text, and from there on to no line before; it tells the line where it starts.
pub proof fn law_spans_reach_back(
    spans: Seq<Span>,
    bytes: Seq<u8>,
    overlap: int,
    max: int,
    i: int,
)
    requires
        valid_utf8(bytes),
        0 <= overlap,
        0 <= max,
        0 < i < spans.len(),
        0 <= spans[i].start <= bytes.len(),
    ensures
        ({
            let back = overlap_bytes(overlap, max);
            let out = overlapped(spans, bytes, overlap, max)[i];
            &&& back == 0 ==> out == spans[i]
            &&& 0 <= out.start
            &&& out.start == 0 || out.start <= spans[i].start - back
            &&& forall|k: int|
                out.start <= k < spans[i].start - back ==> #[trigger] bytes[k] != 10
            &&& out.start < spans[i].start ==> out.first_line == capped(
                1 + newlines(bytes.take(out.start)),
            )
        }),
{
    let back = overlap_bytes(overlap, max);
    let from = if back <= spans[i].start {
        spans[i].start - back
    } else {
        0
    };
    lemma_line_start(bytes, from);
    lemma_char_start_near(bytes, from);
    if from > 0 {
        lemma_char_in_line(bytes, from);
    }
}

/// The character at a position starts in the line of the position.
proof fn lemma_char_in_line(bytes: Seq<u8>, at: int)
    requires
        valid_utf8(bytes),
        0 < at <= bytes.len(),
    ensures
        line_start(bytes, at) <= char_start(bytes, at),
{
    lemma_line_start(bytes, at);
    let line = line_start(bytes, at);
    crate::lines::lemma_cut_beside_ascii(bytes, line);
    crate::lines::lemma_char_start_from(bytes, line, at);
}

/// The spans of a text that is cut along its nodes are those of the nodes, of which
/// each but the first reaches back.
pub proof fn law_plan_reaches_back(
    nodes: Seq<Span>,
    bytes: Seq<u8>,
    max: int,
    overlap: int,
    i: int,
)
    requires
        valid_utf8(bytes),
        0 <= max,
        0 <= overlap,
        structural_spans(nodes, bytes, max) is Some,
        0 <= i < (structural_spans(nodes, bytes, max)->0).len(),
        0 <= structural_spans(nodes, bytes, max)->0[i].start <= bytes.len(),
    ensures
        structural_plan(nodes, bytes, max, overlap) is Some,
        reaches_back(
            structural_spans(nodes, bytes, max)->0,
            structural_plan(nodes, bytes, max, overlap)->0,
            bytes,
            overlap_bytes(overlap, max),
            i,
        ),
{
    let spans = structural_spans(nodes, bytes, max)->0;
    if i > 0 {
        law_spans_reach_back(spans, bytes, overlap, max, i);
    }
}

/// Whether a span is one that was given and, unless it is the first, reaches back by
/// some bytes, or to the start of the text, and on within the line there.
pub open spec fn reaches_back(
    spans: Seq<Span>,
    out: Seq<Span>,
    bytes: Seq<u8>,
    back: int,
    i: int,
) -> bool {
    &&& out.len() == spans.len()
    &&& out[i].end == spans[i].end
    &&& out[i].kind == spans[i].kind
    &&& out[i].last_line == spans[i].last_line
    &&& i == 0 || back == 0 ==> out[i] == spans[i]
    &&& i > 0 ==> {
        &&& out[i].start == 0 || out[i].start <= spans[i].start - back
        &&& forall|k: int| out[i].start <= k < spans[i].start - back ==> #[trigger] bytes[k] != 10
    }
}

/// A text that is cut by lines is cut from its first line on, and each span but the
/// first reaches back.
pub proof fn law_text_reaches_back(text: Seq<char>, max: int, overlap: int, i: int)
    requires
        0 <= max,
        0 <= overlap,
        bytes_of(text).len() > 0,
        0 <= i < fallback_plan(bytes_of(text), max, overlap).len(),
    ensures
        ({
            let bytes = bytes_of(text);
            let spans = fallback_spans(bytes, 0, bytes.len() as int, 1, max, "file"@);
            &&& adjoining(spans, 0, bytes.len() as int)
            &&& reaches_back(
                spans,
                fallback_plan(bytes, max, overlap),
                bytes,
                overlap_bytes(overlap, max),
                i,
            )
        }),
{
    let bytes = bytes_of(text);
    let end = bytes.len() as int;
    encode_utf8_valid_utf8(text);
    is_char_boundary_start_end_of_seq(bytes);
    let spans = fallback_spans(bytes, 0, end, 1, max, "file"@);
    assert(range_ok(bytes, 0, end));
    law_fallback_covers(bytes, 0, end, 1, max, "file"@);
    lemma_within(spans, 0, end);
    if i > 0 {
        law_spans_reach_back(spans, bytes, overlap, max, i);
    }
}

/// Spans that stand one behind the other lie between the first and the last byte.
proof fn lemma_within(spans: Seq<Span>, from: int, to: int)
    requires
        adjoining(spans, from, to),
    ensures
        from <= to,
        forall|i: int| 0 <= i < spans.len() ==> from <= (#[trigger] spans[i]).start <= to,
    decreases spans.len(),
{
    if spans.len() > 0 {
        let rest = spans.drop_first();
        lemma_within(rest, spans[0].end, to);
        assert forall|i: int| 0 <= i < spans.len() implies from <= (#[trigger] spans[i]).start
            <= to by {
            if i > 0 {
                assert(spans[i] == rest[i - 1]);
            }
        }
    }
}

/// The chunks of a text that has structural nodes are made of its spans, one of each,
/// with the context that each has in the tree. They name the path and the language
/// that were given.
pub proof fn law_source_chunks(
    language: LoadedView,
    path: Seq<char>,
    source: Seq<char>,
    max: int,
    overlap: int,
    i: int,
)
    requires
        source_nodes(language, source).len() > 0,
        source_pieces(language, path, source, max, overlap) is Some,
        0 <= i < (source_pieces(language, path, source, max, overlap)->0).len(),
    ensures
        ({
            let bytes = bytes_of(source);
            let tree = tree_of(language.language, source);
            let nodes = node_order(captures_of(source, tree, language.query));
            let chunks = source_pieces(language, path, source, max, overlap)->0;
            let plan = structural_plan(nodes, bytes, max, overlap);
            &&& plan is Some
            &&& (plan->0).len() == chunks.len()
            &&& chunks[i].path == path
            &&& chunks[i].language == language.name
            &&& chunks[i].kind == plan->0[i].kind
            &&& chunks[i].first_line == plan->0[i].first_line
            &&& chunks[i].last_line == plan->0[i].last_line
            &&& context_path(language.name, tree, bytes, plan->0[i]) == Some(chunks[i].context)
            &&& piece(path, language.name, bytes, plan->0[i], Some(chunks[i].context)) == Some(
                chunks[i],
            )
        }),
{
    let bytes = bytes_of(source);
    let tree = tree_of(language.language, source);
    let nodes = node_order(captures_of(source, tree, language.query));
    let plan = structural_plan(nodes, bytes, max, overlap)->0;
    law_chunks_follow_spans(
        path,
        language.name,
        bytes,
        plan,
        tree_contexts(language.name, tree, bytes, plan),
        i,
    );
}

/// The chunks of a text without structural nodes are made of its runs of lines, one
/// of each, without a context.
pub proof fn law_text_chunks(
    path: Seq<char>,
    language: Seq<char>,
    text: Seq<char>,
    max: int,
    overlap: int,
    i: int,
)
    requires
        fallback_pieces(path, language, text, max, overlap) is Some,
        0 <= i < (fallback_pieces(path, language, text, max, overlap)->0).len(),
    ensures
        ({
            let bytes = bytes_of(text);
            let chunks = fallback_pieces(path, language, text, max, overlap)->0;
            let plan = fallback_plan(bytes, max, overlap);
            &&& plan.len() == chunks.len()
            &&& chunks[i].path == path
            &&& chunks[i].language == language
            &&& chunks[i].kind == "file"@
            &&& chunks[i].first_line == plan[i].first_line
            &&& chunks[i].last_line == plan[i].last_line
            &&& chunks[i].context is None
            &&& piece(path, language, bytes, plan[i], Some(None)) == Some(chunks[i])
        }),
{
    let bytes = bytes_of(text);
    let plan = fallback_plan(bytes, max, overlap);
    law_chunks_follow_spans(path, language, bytes, plan, no_contexts(plan.len()), i);
    crate::cover_laws::law_fallback_kind(bytes, 0, bytes.len() as int, 1, max, "file"@);
    let spans = fallback_spans(bytes, 0, bytes.len() as int, 1, max, "file"@);
    assert(plan[i].kind == spans[i].kind);
}

// ---------------------------------------------------------------------------
// Runs of lines
// ---------------------------------------------------------------------------

/// Whether a line is cut before `to` since it is too long: from some byte of the
/// span on no line feed stands within the limit.
pub open spec fn cut_in_line(bytes: Seq<u8>, from: int, to: int, end: int, max: int) -> bool {
    exists|at: int|
        from <= at < to && to - 4 * max <= at && at + 4 * max < end && #[trigger] no_feed(
            bytes,
            at,
            at + 4 * max,
        )
}

/// Whether no line feed stands from `from` on before `to`.
pub open spec fn no_feed(bytes: Seq<u8>, from: int, to: int) -> bool {
    forall|k: int| from <= k < to ==> #[trigger] bytes[k] != 10
}

/// Where a run ends: behind a line, or in one that is too long.
proof fn lemma_run_ends(bytes: Seq<u8>, at: int, end: int, used: int, max: int)
    requires
        valid_utf8(bytes),
        0 <= at <= end <= bytes.len(),
        is_char_boundary(bytes, at),
        is_char_boundary(bytes, end),
        0 <= used <= max,
        0 < max,
    ensures
        ({
            let to = run_end(bytes, at, end, used, max);
            to == at || to == end || bytes[to - 1] == 10 || cut_in_line(bytes, at, to, end, max)
        }),
    decreases end - at,
{
    let to = run_end(bytes, at, end, used, max);
    lemma_run_end(bytes, at, end, used, max);
    if at < end {
        let next = piece_end(bytes, at, end, max);
        let cost = tokens(next - at);
        lemma_next_piece(bytes, at, end, max);
        if !(used > 0 && !fits(used + cost, max)) {
            lemma_run_end(bytes, next, end, used + cost, max);
            lemma_run_ends(bytes, next, end, used + cost, max);
            if to == next {
                lemma_line_end(bytes, at, end);
                let behind = line_end(bytes, at, end);
                if fits(tokens(behind - at), max) {
                    assert(next == behind);
                } else {
                    assert(behind - at > 4 * max);
                    assert(no_feed(bytes, at, at + 4 * max));
                    assert(cut_in_line(bytes, at, to, end, max));
                }
            } else if to != end && bytes[to - 1] != 10 {
                assert(cut_in_line(bytes, next, to, end, max));
                let k = choose|k: int|
                    next <= k < to && to - 4 * max <= k && k + 4 * max < end && #[trigger] no_feed(
                        bytes,
                        k,
                        k + 4 * max,
                    );
                assert(no_feed(bytes, k, k + 4 * max));
                assert(cut_in_line(bytes, at, to, end, max));
            }
        }
    }
}

/// A piece is not empty, and its cost is within the limit.
proof fn lemma_next_piece(bytes: Seq<u8>, at: int, end: int, max: int)
    requires
        valid_utf8(bytes),
        0 <= at < end <= bytes.len(),
        is_char_boundary(bytes, at),
        is_char_boundary(bytes, end),
        0 < max,
    ensures
        at < piece_end(bytes, at, end, max) <= end,
        is_char_boundary(bytes, piece_end(bytes, at, end, max)),
        0 < tokens(piece_end(bytes, at, end, max) - at) <= max,
        !fits(tokens(line_end(bytes, at, end) - at), max) ==> {
            &&& tokens(piece_end(bytes, at, end, max) - at) == max
            &&& piece_end(bytes, at, end, max) <= at + 4 * max < line_end(bytes, at, end)
        },
{
    lemma_line_end(bytes, at, end);
    let behind = line_end(bytes, at, end);
    if fits(tokens(behind - at), max) {
        if behind < end {
            crate::lines::lemma_cut_beside_ascii(bytes, behind);
        }
    } else {
        lemma_char_start_near(bytes, at + 4 * max);
    }
}

/// What lines cost: the tokens of each, one by one.
pub open spec fn cost_of_lines(bytes: Seq<u8>, from: int, to: int) -> int
    decreases to - from,
{
    if from >= to {
        0
    } else {
        let behind = line_end(bytes, from, to);
        if from < behind <= to {
            tokens(behind - from) + cost_of_lines(bytes, behind, to)
        } else {
            0
        }
    }
}

/// A line that ends before two bounds ends at the same place for both.
proof fn lemma_line_bound(bytes: Seq<u8>, at: int, to: int, end: int)
    requires
        0 <= at < to <= end <= bytes.len(),
    ensures
        line_end(bytes, at, to) == if line_end(bytes, at, end) <= to {
            line_end(bytes, at, end)
        } else {
            to
        },
    decreases to - at,
{
    lemma_line_end(bytes, at, end);
    if bytes[at] != 10 {
        if at + 1 < to {
            lemma_line_bound(bytes, at + 1, to, end);
        } else {
            assert(line_end(bytes, at + 1, to) == to);
            if at + 1 < end {
                lemma_line_end(bytes, at + 1, end);
            }
        }
    }
}

/// A run takes as many lines as the limit allows: with the line behind it, it would
/// exceed it.
proof fn lemma_run_is_full(bytes: Seq<u8>, at: int, end: int, used: int, max: int)
    requires
        valid_utf8(bytes),
        0 <= at <= end <= bytes.len(),
        is_char_boundary(bytes, at),
        is_char_boundary(bytes, end),
        0 <= used <= max,
        0 < max,
    ensures
        ({
            let to = run_end(bytes, at, end, used, max);
            to < end ==> used + cost_of_lines(bytes, at, to) + tokens(line_end(bytes, to, end) - to)
                > max
        }),
    decreases end - at,
{
    let to = run_end(bytes, at, end, used, max);
    lemma_run_end(bytes, at, end, used, max);
    if at < end {
        let next = piece_end(bytes, at, end, max);
        let cost = tokens(next - at);
        lemma_next_piece(bytes, at, end, max);
        lemma_line_end(bytes, at, end);
        if used > 0 && !fits(used + cost, max) {
            assert(to == at);
            assert(cost_of_lines(bytes, at, at) == 0);
        } else if to < end {
            lemma_run_end(bytes, next, end, used + cost, max);
            lemma_run_is_full(bytes, next, end, used + cost, max);
            lemma_line_bound(bytes, at, to, end);
            if fits(tokens(line_end(bytes, at, end) - at), max) {
                assert(cost_of_lines(bytes, at, to) == cost + cost_of_lines(bytes, next, to));
            } else {
                assert(used == 0);
                assert(cost == max);
                if next < end {
                    lemma_next_piece(bytes, next, end, max);
                }
                assert(to == next);
                assert(line_end(bytes, at, to) == to);
                assert(cost_of_lines(bytes, to, to) == 0);
                assert(cost_of_lines(bytes, at, to) == max);
            }
        }
    }
}

/// A part of a text that is cut by lines is cut as little as possible: each span but
/// the last ends with a line, unless that line is too long itself, and could not
/// have taken the line behind it.
pub proof fn law_runs_are_full(
    bytes: Seq<u8>,
    start: int,
    end: int,
    line: int,
    max: int,
    kind: Seq<char>,
)
    requires
        valid_utf8(bytes),
        0 <= start < end <= bytes.len(),
        is_char_boundary(bytes, start),
        is_char_boundary(bytes, end),
        0 < max,
    ensures
        ({
            let spans = fallback_spans(bytes, start, end, line, max, kind);
            forall|i: int|
                0 <= i < spans.len() && (#[trigger] spans[i]).end < end ==> {
                    let span = spans[i];
                    &&& bytes[span.end - 1] == 10 || cut_in_line(
                        bytes,
                        span.start,
                        span.end,
                        end,
                        max,
                    )
                    &&& cost_of_lines(bytes, span.start, span.end) + tokens(
                        line_end(bytes, span.end, end) - span.end,
                    ) > max
                }
        }),
{
    if !fits(tokens(end - start), max) {
        assert(cut_out(bytes, start, end).len() == end - start);
        lemma_packed_full(bytes, start, start, end, line, max, kind);
    } else {
        assert(cut_out(bytes, start, end).len() == end - start);
    }
}

/// Runs are full.
proof fn lemma_packed_full(
    bytes: Seq<u8>,
    start: int,
    at: int,
    end: int,
    line: int,
    max: int,
    kind: Seq<char>,
)
    requires
        valid_utf8(bytes),
        0 <= start <= at <= end <= bytes.len(),
        is_char_boundary(bytes, at),
        is_char_boundary(bytes, end),
        0 < max,
    ensures
        ({
            let spans = packed(bytes, start, at, end, line, max, kind);
            forall|i: int|
                0 <= i < spans.len() && (#[trigger] spans[i]).end < end ==> {
                    let span = spans[i];
                    &&& bytes[span.end - 1] == 10 || cut_in_line(
                        bytes,
                        span.start,
                        span.end,
                        end,
                        max,
                    )
                    &&& cost_of_lines(bytes, span.start, span.end) + tokens(
                        line_end(bytes, span.end, end) - span.end,
                    ) > max
                }
        }),
    decreases end - at,
{
    let spans = packed(bytes, start, at, end, line, max, kind);
    if at < end {
        let to = run_end(bytes, at, end, 0, max);
        lemma_run_end(bytes, at, end, 0, max);
        lemma_run_ends(bytes, at, end, 0, max);
        lemma_run_is_full(bytes, at, end, 0, max);
        lemma_packed_full(bytes, start, to, end, line, max, kind);
        let rest = packed(bytes, start, to, end, line, max, kind);
        assert forall|i: int| 0 <= i < spans.len() && (#[trigger] spans[i]).end < end implies ({
            let span = spans[i];
            &&& bytes[span.end - 1] == 10 || cut_in_line(bytes, span.start, span.end, end, max)
            &&& cost_of_lines(bytes, span.start, span.end) + tokens(
                line_end(bytes, span.end, end) - span.end,
            ) > max
        }) by {
            if i > 0 {
                assert(spans[i] == rest[i - 1]);
            }
        }
    }
}

} // verus!
