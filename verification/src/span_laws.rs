//! What holds of every way in which a text is cut into spans.
use crate::chunker::{chunk_header, fallback_pieces, no_contexts, piece, pieces};
use crate::lines::{
    bytes_of, capped, cut_ok, cut_out, lemma_char_start_near, lemma_cut_beside_ascii,
    lemma_cut_of_prefix, lemma_line_start, lemma_newlines_between, lesser, line_start, newlines,
    range_ok,
};
use crate::sorting::{ascending, lemma_in_order, lemma_in_order_contains, rank_le, ranking};
use crate::spans::{
    by_size, distance, fallback_spans, fits, inside, inside_any, lemma_outermost_covers,
    lemma_run_end, line_span, merged, merged_from, outermost, overlap_bytes, overlapped, packed,
    pruned, reached_back, run_end, tokens, ChunkSpan, Span,
};
use vstd::prelude::*;
use vstd::utf8::*;

verus! {

// ---------------------------------------------------------------------------
// Limits
// ---------------------------------------------------------------------------

/// Whether a span is within the limit.
pub open spec fn limited(span: Span, max: int) -> bool {
    fits(tokens(distance(span.start, span.end)), max)
}

/// Whether spans stand one behind the other from `from` to `to`, none of them
/// empty.
pub open spec fn adjoining(spans: Seq<Span>, from: int, to: int) -> bool
    decreases spans.len(),
{
    if spans.len() == 0 {
        from == to
    } else {
        from == spans[0].start < spans[0].end && adjoining(spans.drop_first(), spans[0].end, to)
    }
}

/// What holds of runs: each is within the limit, can be cut out and tells its
/// lines, and they stand one behind the other.
proof fn lemma_packed(
    bytes: Seq<u8>,
    start: int,
    at: int,
    end: int,
    line: int,
    max: int,
    kind: Seq<char>,
)
    requires
        valid_utf8(bytes),
        0 <= start <= at <= end <= bytes.len(),
        is_char_boundary(bytes, at),
        is_char_boundary(bytes, end),
        0 < max,
    ensures
        ({
            let spans = packed(bytes, start, at, end, line, max, kind);
            &&& adjoining(spans, at, end)
            &&& forall|i: int|
                0 <= i < spans.len() ==> {
                    let span = #[trigger] spans[i];
                    &&& at <= span.start < span.end <= end
                    &&& limited(span, max)
                    &&& is_char_boundary(bytes, span.start)
                    &&& is_char_boundary(bytes, span.end)
                    &&& span == line_span(bytes, start, span.start, span.end, line, kind)
                }
        }),
    decreases end - at,
{
    let spans = packed(bytes, start, at, end, line, max, kind);
    if at < end {
        let to = run_end(bytes, at, end, 0, max);
        lemma_run_end(bytes, at, end, 0, max);
        lemma_packed(bytes, start, to, end, line, max, kind);
        let rest = packed(bytes, start, to, end, line, max, kind);
        assert(spans.drop_first() =~= rest);
        assert forall|i: int| 0 <= i < spans.len() implies ({
            let span = #[trigger] spans[i];
            &&& at <= span.start < span.end <= end
            &&& limited(span, max)
            &&& is_char_boundary(bytes, span.start)
            &&& is_char_boundary(bytes, span.end)
            &&& span == line_span(bytes, start, span.start, span.end, line, kind)
        }) by {
            if i > 0 {
                assert(spans[i] == rest[i - 1]);
            }
        }
    }
}

/// A part of a text that is cut by lines gives spans within the limit.
pub proof fn law_fallback_limited(
    bytes: Seq<u8>,
    start: int,
    end: int,
    line: int,
    max: int,
    kind: Seq<char>,
)
    requires
        valid_utf8(bytes),
        0 <= start,
        0 <= end <= bytes.len(),
        0 <= max,
        range_ok(bytes, start, end),
    ensures
        forall|i: int|
            0 <= i < fallback_spans(bytes, start, end, line, max, kind).len() ==> limited(
                #[trigger] fallback_spans(bytes, start, end, line, max, kind)[i],
                max,
            ),
{
    let slice = cut_out(bytes, start, end);
    assert(slice.len() == distance(start, end));
    if !fits(tokens(slice.len() as int), max) {
        lemma_packed(bytes, start, start, end, line, max, kind);
    }
}

/// Merging gives spans within the limit, but for spans that it leaves as they
/// are.
pub proof fn law_merged_limited(spans: Seq<Span>, max: int, parent_kind: Seq<char>)
    ensures
        forall|i: int|
            0 <= i < merged(spans, max, parent_kind).len() ==> {
                let span = #[trigger] merged(spans, max, parent_kind)[i];
                spans.contains(span) || fits(tokens(distance(span.start, span.end)), max)
            },
{
    if spans.len() > 0 {
        assert(spans.contains(spans[0]));
        lemma_merged_from_limited(spans, spans[0], spans.drop_first(), max, parent_kind);
    }
}

/// Merging on from a span gives spans within the limit, but for spans that it
/// leaves as they are.
proof fn lemma_merged_from_limited(
    spans: Seq<Span>,
    active: Span,
    rest: Seq<Span>,
    max: int,
    parent_kind: Seq<char>,
)
    requires
        spans.contains(active) || fits(tokens(distance(active.start, active.end)), max),
        forall|k: int| 0 <= k < rest.len() ==> spans.contains(#[trigger] rest[k]),
    ensures
        forall|i: int|
            0 <= i < merged_from(active, rest, max, parent_kind).len() ==> {
                let span = #[trigger] merged_from(active, rest, max, parent_kind)[i];
                spans.contains(span) || fits(tokens(distance(span.start, span.end)), max)
            },
    decreases rest.len(),
{
    if rest.len() > 0 {
        let next = if fits(tokens(distance(active.start, rest[0].end)), max) {
            crate::spans::combined(active, rest[0], parent_kind)
        } else {
            rest[0]
        };
        lemma_merged_from_limited(spans, next, rest.drop_first(), max, parent_kind);
        let out = merged_from(active, rest, max, parent_kind);
        let behind = merged_from(next, rest.drop_first(), max, parent_kind);
        assert forall|i: int| 0 <= i < out.len() implies spans.contains(#[trigger] out[i]) || fits(
            tokens(distance(out[i].start, out[i].end)),
            max,
        ) by {
            if !fits(tokens(distance(active.start, rest[0].end)), max) && i > 0 {
                assert(out[i] == behind[i - 1]);
            }
        }
    }
}

// ---------------------------------------------------------------------------
// Cover
// ---------------------------------------------------------------------------

/// A part of a text that is cut by lines is held by its spans byte for byte: they
/// stand one behind the other from its start to its end.
pub proof fn law_fallback_covers(
    bytes: Seq<u8>,
    start: int,
    end: int,
    line: int,
    max: int,
    kind: Seq<char>,
)
    requires
        valid_utf8(bytes),
        0 <= start < end <= bytes.len(),
        0 <= max,
        range_ok(bytes, start, end),
    ensures
        adjoining(fallback_spans(bytes, start, end, line, max, kind), start, end),
{
    let spans = fallback_spans(bytes, start, end, line, max, kind);
    if fits(tokens(end - start), max) {
        assert(spans.drop_first() =~= Seq::<Span>::empty());
        assert(adjoining(Seq::<Span>::empty(), end, end));
    } else {
        lemma_packed(bytes, start, start, end, line, max, kind);
    }
}

// ---------------------------------------------------------------------------
// Line numbers
// ---------------------------------------------------------------------------

/// A part of a text that is cut by lines gives spans that tell the line of their
/// first byte and the line of their last byte.
pub proof fn law_fallback_tells_lines(
    bytes: Seq<u8>,
    start: int,
    end: int,
    line: int,
    max: int,
    kind: Seq<char>,
)
    requires
        valid_utf8(bytes),
        0 <= start < end <= bytes.len(),
        0 <= max,
        range_ok(bytes, start, end),
        line == capped(1 + newlines(bytes.take(start))),
    ensures
        forall|i: int|
            0 <= i < fallback_spans(bytes, start, end, line, max, kind).len() ==> {
                let span = #[trigger] fallback_spans(bytes, start, end, line, max, kind)[i];
                &&& span.first_line == capped(1 + newlines(bytes.take(span.start)))
                &&& span.last_line == capped(1 + newlines(bytes.take(span.end - 1)))
            },
{
    let spans = fallback_spans(bytes, start, end, line, max, kind);
    let slice = bytes.subrange(start, end);
    if fits(tokens(end - start), max) {
        lemma_line_told(bytes, start, end - 1, line);
        assert(slice.drop_last() =~= bytes.subrange(start, end - 1));
    } else {
        lemma_packed(bytes, start, start, end, line, max, kind);
        assert forall|i: int| 0 <= i < spans.len() implies ({
            let span = #[trigger] spans[i];
            &&& span.first_line == capped(1 + newlines(bytes.take(span.start)))
            &&& span.last_line == capped(1 + newlines(bytes.take(span.end - 1)))
        }) by {
            lemma_line_told(bytes, start, spans[i].start, line);
            lemma_line_told(bytes, start, spans[i].end - 1, line);
        }
    }
}

/// Lines that are counted on from a line are those counted from the first one.
proof fn lemma_line_told(bytes: Seq<u8>, start: int, at: int, line: int)
    requires
        0 <= start <= at <= bytes.len(),
        line == capped(1 + newlines(bytes.take(start))),
    ensures
        capped(line + newlines(bytes.subrange(start, at))) == capped(1 + newlines(bytes.take(at))),
{
    lemma_newlines_between(bytes, 0, start, at);
    lemma_newlines_between(bytes, start, start, at);
    assert(bytes.take(start) =~= bytes.subrange(0, start));
    assert(bytes.take(at) =~= bytes.subrange(0, at));
}

// ---------------------------------------------------------------------------
// Where a text can be cut
// ---------------------------------------------------------------------------

/// Whether a span starts and ends where the text can be cut.
pub open spec fn cuts(span: Span, bytes: Seq<u8>) -> bool {
    &&& 0 <= span.start && cut_ok(bytes, span.start)
    &&& 0 <= span.end && cut_ok(bytes, span.end)
}

/// Whether each span starts and ends where the text can be cut.
pub open spec fn all_cut(spans: Seq<Span>, bytes: Seq<u8>) -> bool {
    forall|i: int| 0 <= i < spans.len() ==> cuts(#[trigger] spans[i], bytes)
}

/// A part of a text that is cut by lines is cut between characters.
pub proof fn lemma_fallback_cuts(
    bytes: Seq<u8>,
    start: int,
    end: int,
    line: int,
    max: int,
    kind: Seq<char>,
)
    requires
        valid_utf8(bytes),
        0 <= start,
        0 <= end,
        0 <= max,
        cut_ok(bytes, start),
        cut_ok(bytes, end),
    ensures
        all_cut(fallback_spans(bytes, start, end, line, max, kind), bytes),
{
    let slice = cut_out(bytes, start, end);
    if !fits(tokens(slice.len() as int), max) {
        lemma_packed(bytes, start, start, lesser(end, bytes.len() as int), line, max, kind);
    }
}

/// Spans that reach back do so to where a character starts.
pub proof fn lemma_overlap_cuts(spans: Seq<Span>, bytes: Seq<u8>, overlap: int, max: int)
    requires
        valid_utf8(bytes),
        0 <= overlap,
        0 <= max,
        all_cut(spans, bytes),
    ensures
        all_cut(overlapped(spans, bytes, overlap, max), bytes),
{
    let back = overlap_bytes(overlap, max);
    let end = bytes.len() as int;
    let out = overlapped(spans, bytes, overlap, max);
    assert forall|i: int| 0 <= i < out.len() implies cuts(#[trigger] out[i], bytes) by {
        assert(cuts(spans[i], bytes));
        let from = lesser(reached_back(spans[i], back), end);
        lemma_line_start(bytes, from);
        lemma_cut_beside_ascii(bytes, line_start(bytes, from));
        lemma_char_start_near(bytes, from);
    }
}

/// Every text is cut into chunks, whatever the limit and the overlap.
pub proof fn law_text_is_chunked(
    path: Seq<char>,
    language: Seq<char>,
    text: Seq<char>,
    max: int,
    overlap: int,
)
    requires
        0 <= max,
        0 <= overlap,
    ensures
        fallback_pieces(path, language, text, max, overlap) is Some,
{
    let bytes = bytes_of(text);
    let end = bytes.len() as int;
    encode_utf8_valid_utf8(text);
    lemma_cut_beside_ascii(bytes, 0);
    lemma_cut_beside_ascii(bytes, end);
    lemma_fallback_cuts(bytes, 0, end, 1, max, "file"@);
    let spans = fallback_spans(bytes, 0, end, 1, max, "file"@);
    lemma_overlap_cuts(spans, bytes, overlap, max);
    lemma_pieces(path, language, bytes, overlapped(spans, bytes, overlap, max));
}

/// Without an overlap, each chunk of a text is its header with a part of the text
/// that is within the limit behind it.
pub proof fn law_chunks_limited(
    path: Seq<char>,
    language: Seq<char>,
    text: Seq<char>,
    max: int,
    at: int,
)
    requires
        0 <= max,
        0 <= at < (fallback_pieces(path, language, text, max, 0)->0).len(),
    ensures
        ({
            let chunk = (fallback_pieces(path, language, text, max, 0)->0)[at];
            let bytes = bytes_of(text);
            let span = fallback_spans(bytes, 0, bytes.len() as int, 1, max, "file"@)[at];
            let body = decode_utf8(cut_out(bytes, span.start, span.end));
            &&& chunk.text == chunk_header(path, language, span, None) + body
            &&& fits(tokens(bytes_of(body).len() as int), max)
        }),
{
    let bytes = bytes_of(text);
    let end = bytes.len() as int;
    encode_utf8_valid_utf8(text);
    lemma_cut_beside_ascii(bytes, 0);
    lemma_cut_beside_ascii(bytes, end);
    lemma_fallback_cuts(bytes, 0, end, 1, max, "file"@);
    law_fallback_limited(bytes, 0, end, 1, max, "file"@);
    law_text_is_chunked(path, language, text, max, 0);
    let spans = fallback_spans(bytes, 0, end, 1, max, "file"@);
    assert(overlap_bytes(0, max) == 0);
    assert(overlapped(spans, bytes, 0, max) =~= spans);
    let span = spans[at];
    let part = cut_out(bytes, span.start, span.end);
    let from = lesser(span.start, end);
    let to = lesser(span.end, end);
    if from < to {
        lemma_cut_of_prefix(bytes, from, to);
        valid_utf8_split(bytes.subrange(0, to), from);
        assert(bytes.subrange(0, to).subrange(from, to) =~= part);
    }
    assert(valid_utf8(part));
    decode_utf8_encode_utf8(part);
    assert(part.len() <= distance(span.start, span.end));
}

/// Spans that are cut between characters give chunks.
proof fn lemma_pieces(path: Seq<char>, language: Seq<char>, bytes: Seq<u8>, spans: Seq<Span>)
    requires
        all_cut(spans, bytes),
    ensures
        pieces(path, language, bytes, spans, no_contexts(spans.len())) is Some,
{
    let contexts = no_contexts(spans.len());
    assert forall|i: int| 0 <= i < spans.len() implies piece(
        path,
        language,
        bytes,
        #[trigger] spans[i],
        contexts[i],
    ) is Some by {
        assert(contexts[i] == Some(None::<Seq<char>>));
    }
}

// ---------------------------------------------------------------------------
// Pruning
// ---------------------------------------------------------------------------

/// What is kept was there before.
proof fn lemma_outermost_among(spans: Seq<Span>)
    ensures
        forall|i: int|
            0 <= i < outermost(spans).len() ==> spans.contains(#[trigger] outermost(spans)[i]),
    decreases spans.len(),
{
    if spans.len() > 0 {
        let before = spans.drop_last();
        lemma_outermost_among(before);
        let kept = outermost(before);
        assert forall|i: int| 0 <= i < outermost(spans).len() implies spans.contains(
            #[trigger] outermost(spans)[i],
        ) by {
            if i < kept.len() {
                assert(before.contains(kept[i]));
                let k = choose|k: int| 0 <= k < before.len() && before[k] == kept[i];
                assert(spans[k] == kept[i]);
            } else {
                assert(spans[spans.len() - 1] == spans.last());
            }
        }
    }
}

/// Where longer spans come first, no span that is kept lies inside another.
proof fn lemma_outermost_apart(spans: Seq<Span>)
    requires
        forall|i: int| 0 <= i < spans.len() ==> (#[trigger] spans[i]).start <= spans[i].end,
        forall|i: int, j: int|
            0 <= i < j < spans.len() ==> (#[trigger] spans[i]).end - spans[i].start >= (
            #[trigger] spans[j]).end - spans[j].start,
    ensures
        forall|i: int, j: int|
            0 <= i < outermost(spans).len() && 0 <= j < outermost(spans).len() && i != j ==> !inside(
                #[trigger] outermost(spans)[i],
                #[trigger] outermost(spans)[j],
            ),
    decreases spans.len(),
{
    if spans.len() > 0 {
        let before = spans.drop_last();
        let last = spans.last();
        assert forall|i: int, j: int| 0 <= i < j < before.len() implies (#[trigger] before[i]).end
            - before[i].start >= (#[trigger] before[j]).end - before[j].start by {
            assert(spans[i] == before[i] && spans[j] == before[j]);
        }
        assert forall|i: int| 0 <= i < before.len() implies (#[trigger] before[i]).start
            <= before[i].end by {
            assert(spans[i] == before[i]);
        }
        lemma_outermost_apart(before);
        let kept = outermost(before);
        let out = outermost(spans);
        lemma_outermost_among(before);
        assert forall|i: int, j: int|
            0 <= i < out.len() && 0 <= j < out.len() && i != j implies !inside(
            #[trigger] out[i],
            #[trigger] out[j],
        ) by {
            if i < kept.len() && j < kept.len() {
                assert(out[i] == kept[i] && out[j] == kept[j]);
            } else {
                let other = if i < kept.len() {
                    i
                } else {
                    j
                };
                assert(before.contains(kept[other]));
                let k = choose|k: int| 0 <= k < before.len() && before[k] == kept[other];
                assert(!inside(last, before[k]));
                assert(spans[k] == before[k] && spans[spans.len() - 1] == last);
            }
        }
    }
}

/// Pruning keeps some of the spans; each span lies inside one that is kept, and
/// none that is kept lies inside another.
pub proof fn law_pruned(spans: Seq<Span>)
    requires
        forall|i: int| 0 <= i < spans.len() ==> (#[trigger] spans[i]).start <= spans[i].end,
    ensures
        forall|i: int| 0 <= i < pruned(spans).len() ==> spans.contains(#[trigger] pruned(spans)[i]),
        forall|i: int| 0 <= i < spans.len() ==> inside_any(#[trigger] spans[i], pruned(spans)),
        forall|i: int, j: int|
            0 <= i < pruned(spans).len() && 0 <= j < pruned(spans).len() && i != j ==> !inside(
                #[trigger] pruned(spans)[i],
                #[trigger] pruned(spans)[j],
            ),
        ascending(pruned(spans), ranking::<ChunkSpan>(false)),
{
    broadcast use vstd::seq_lib::group_to_multiset_ensures;

    let sorted = by_size(spans);
    let kept = outermost(sorted);
    let out = pruned(spans);
    let size = ranking::<ChunkSpan>(true);
    let start = ranking::<ChunkSpan>(false);
    lemma_in_order(spans, size);
    lemma_in_order(kept, start);
    lemma_outermost_among(sorted);
    assert forall|i: int| 0 <= i < sorted.len() implies (#[trigger] sorted[i]).start
        <= sorted[i].end by {
        lemma_in_order_contains(spans, size, sorted[i]);
        assert(sorted.contains(sorted[i]));
    }
    assert forall|i: int, j: int| 0 <= i < j < sorted.len() implies (#[trigger] sorted[i]).end
        - sorted[i].start >= (#[trigger] sorted[j]).end - sorted[j].start by {
        assert(rank_le(size(sorted[i]), size(sorted[j])));
    }
    lemma_outermost_apart(sorted);
    assert forall|i: int| 0 <= i < out.len() implies spans.contains(#[trigger] out[i]) by {
        lemma_in_order_contains(kept, start, out[i]);
        assert(out.contains(out[i]));
        let k = choose|k: int| 0 <= k < kept.len() && kept[k] == out[i];
        assert(sorted.contains(kept[k]));
        lemma_in_order_contains(spans, size, out[i]);
    }
    assert forall|i: int| 0 <= i < spans.len() implies inside_any(#[trigger] spans[i], out) by {
        lemma_in_order_contains(spans, size, spans[i]);
        let k = choose|k: int| 0 <= k < sorted.len() && sorted[k] == spans[i];
        assert(inside(spans[i], sorted[k]));
        lemma_outermost_covers(sorted, spans[i]);
        let j = choose|j: int| 0 <= j < kept.len() && inside(spans[i], #[trigger] kept[j]);
        assert(kept.contains(kept[j]));
        lemma_in_order_contains(kept, start, kept[j]);
        let m = choose|m: int| 0 <= m < out.len() && out[m] == kept[j];
        assert(inside(spans[i], out[m]));
    }
    assert(kept.no_duplicates()) by {
        assert forall|i: int, j: int| 0 <= i < kept.len() && 0 <= j < kept.len() && i
            != j implies kept[i] != kept[j] by {
            assert(!inside(kept[i], kept[j]));
        }
    }
    kept.lemma_multiset_has_no_duplicates();
    out.lemma_multiset_has_no_duplicates_conv();
    assert forall|i: int, j: int|
        0 <= i < out.len() && 0 <= j < out.len() && i != j implies !inside(
        #[trigger] out[i],
        #[trigger] out[j],
    ) by {
        assert(out[i] != out[j]);
        lemma_in_order_contains(kept, start, out[i]);
        lemma_in_order_contains(kept, start, out[j]);
        assert(out.contains(out[i]) && out.contains(out[j]));
        let a = choose|a: int| 0 <= a < kept.len() && kept[a] == out[i];
        let b = choose|b: int| 0 <= b < kept.len() && kept[b] == out[j];
        assert(!inside(kept[a], kept[b]));
    }
}

// ---------------------------------------------------------------------------
// Overlap
// ---------------------------------------------------------------------------

/// An overlap moves no end and no kind. The first span stays as it is, and each
/// other one starts no later than before: where it did, at the start of a line,
/// or, in a line that exceeds the limit, the overlap before, and at most three
/// bytes earlier, where a character starts.
pub proof fn law_overlap(spans: Seq<Span>, bytes: Seq<u8>, overlap: int, max: int)
    requires
        valid_utf8(bytes),
        0 <= overlap,
        0 <= max,
        forall|i: int| 0 <= i < spans.len() ==> 0 <= (#[trigger] spans[i]).start,
    ensures
        overlapped(spans, bytes, overlap, max).len() == spans.len(),
        spans.len() > 0 ==> overlapped(spans, bytes, overlap, max)[0] == spans[0],
        forall|i: int|
            0 <= i < spans.len() ==> {
                let out = #[trigger] overlapped(spans, bytes, overlap, max)[i];
                let from = lesser(
                    reached_back(spans[i], overlap_bytes(overlap, max)),
                    bytes.len() as int,
                );
                &&& out.end == spans[i].end
                &&& out.last_line == spans[i].last_line
                &&& out.kind == spans[i].kind
                &&& 0 <= out.start <= spans[i].start
                &&& out.start == spans[i].start || out.start == 0 || bytes[out.start - 1] == 10 || (
                from - 3 <= out.start <= from && is_char_boundary(bytes, out.start))
            },
{
    let back = overlap_bytes(overlap, max);
    assert forall|i: int| 0 <= i < spans.len() implies ({
        let out = #[trigger] overlapped(spans, bytes, overlap, max)[i];
        let from = lesser(reached_back(spans[i], back), bytes.len() as int);
        &&& out.end == spans[i].end
        &&& out.last_line == spans[i].last_line
        &&& out.kind == spans[i].kind
        &&& 0 <= out.start <= spans[i].start
        &&& out.start == spans[i].start || out.start == 0 || bytes[out.start - 1] == 10 || (from - 3
            <= out.start <= from && is_char_boundary(bytes, out.start))
    }) by {
        let from = lesser(reached_back(spans[i], back), bytes.len() as int);
        lemma_line_start(bytes, from);
        lemma_char_start_near(bytes, from);
    }
}

} // verus!
