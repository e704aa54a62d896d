//! Spans of a source text: how a text is packed into spans by lines, how
//! neighbouring spans are merged, pruned and made to overlap.
use crate::lines::{
    bytes_of, can_slice, capped, char_start, count_newlines, cut_out, find_char_start,
    find_line_end, lemma_char_start, lemma_cut_beside_ascii, lemma_line_end, lemma_line_start,
    lemma_newlines_between, lesser, line_end, line_for_byte, line_start, line_start_for_byte,
    newlines, range_ok,
};
use crate::sorting::{in_order, ranking, sort_items, views, Ranked};
use vstd::prelude::*;
use vstd::utf8::*;

verus! {

/// A piece of a source text: its bytes, its lines and the kind of syntax node
/// that it stands for.
#[derive(Clone, Debug)]
pub struct ChunkSpan {
    pub start_byte: usize,
    pub end_byte: usize,
    pub start_line: usize,
    pub end_line: usize,
    pub node_kind: String,
}

/// A span as a mathematical value.
#[verifier::ext_equal]
pub struct Span {
    pub start: int,
    pub end: int,
    pub first_line: int,
    pub last_line: int,
    pub kind: Seq<char>,
}

impl View for ChunkSpan {
    type V = Span;

    open spec fn view(&self) -> Span {
        Span {
            start: self.start_byte as int,
            end: self.end_byte as int,
            first_line: self.start_line as int,
            last_line: self.end_line as int,
            kind: self.node_kind@,
        }
    }
}

/// The spans that a list of spans stands for.
pub open spec fn spans_of(list: Seq<ChunkSpan>) -> Seq<Span> {
    views(list)
}

/// A copy of a span.
pub fn copy_span(span: &ChunkSpan) -> (copy: ChunkSpan)
    ensures
        copy@ == span@,
{
    ChunkSpan {
        start_byte: span.start_byte,
        end_byte: span.end_byte,
        start_line: span.start_line,
        end_line: span.end_line,
        node_kind: span.node_kind.clone(),
    }
}

// ---------------------------------------------------------------------------
// Token limits
// ---------------------------------------------------------------------------

/// The estimated number of tokens in `len` bytes: one for every four, rounded
/// up.
pub open spec fn tokens(len: int) -> int {
    (len + 3) / 4
}

/// Whether a number of tokens is within a limit; the limit zero is none.
pub open spec fn fits(count: int, max: int) -> bool {
    max == 0 || count <= max
}

/// Estimates the number of tokens in `len` bytes.
pub fn estimate_tokens_from_len(len: usize) -> (count: usize)
    ensures
        count == tokens(len as int),
{
    let whole: usize = len / 4;
    if len % 4 == 0 {
        whole
    } else {
        whole + 1
    }
}

/// Whether `tokens` is within `max_tokens`; the limit zero is none.
pub fn fits_limits(tokens: usize, max_tokens: usize) -> (within: bool)
    ensures
        within == fits(tokens as int, max_tokens as int),
{
    max_tokens == 0 || tokens <= max_tokens
}

// ---------------------------------------------------------------------------
// Packing lines
// ---------------------------------------------------------------------------

/// Where the next piece of a text ends that is not taken apart: behind the line
/// feed of its line where the rest of the line is within the limit, else behind as
/// many whole characters as the limit allows.
pub open spec fn piece_end(bytes: Seq<u8>, at: int, end: int, max: int) -> int {
    let behind = line_end(bytes, at, end);
    if fits(tokens(behind - at), max) {
        behind
    } else {
        char_start(bytes, at + 4 * max)
    }
}

/// Where a run of pieces ends that goes on at `at` with `used` tokens so far:
/// before the first piece that would exceed the limit, or at the end.
pub open spec fn run_end(bytes: Seq<u8>, at: int, end: int, used: int, max: int) -> int
    decreases end - at,
{
    let next = piece_end(bytes, at, end, max);
    let cost = tokens(next - at);
    if at >= end {
        end
    } else if used > 0 && !fits(used + cost, max) {
        at
    } else if at < next <= end {
        run_end(bytes, next, end, used + cost, max)
    } else {
        end
    }
}

/// The span of the bytes from `from` to `to` of a text that starts at byte
/// `start` in line `line`.
pub open spec fn line_span(
    bytes: Seq<u8>,
    start: int,
    from: int,
    to: int,
    line: int,
    kind: Seq<char>,
) -> Span {
    Span {
        start: from,
        end: to,
        first_line: capped(line + newlines(bytes.subrange(start, from))),
        last_line: capped(line + newlines(bytes.subrange(start, to - 1))),
        kind,
    }
}

/// The spans of a text from byte `at` on, packed greedily into runs.
pub open spec fn packed(
    bytes: Seq<u8>,
    start: int,
    at: int,
    end: int,
    line: int,
    max: int,
    kind: Seq<char>,
) -> Seq<Span>
    decreases end - at,
{
    let to = run_end(bytes, at, end, 0, max);
    if at < to <= end {
        seq![line_span(bytes, start, at, to, line, kind)] + packed(
            bytes,
            start,
            to,
            end,
            line,
            max,
            kind,
        )
    } else {
        Seq::empty()
    }
}

/// The spans of the bytes from `start` to `end` that are cut by lines: one
/// span where the range is within the limit, runs of lines where it is not.
pub open spec fn fallback_spans(
    bytes: Seq<u8>,
    start: int,
    end: int,
    line: int,
    max: int,
    kind: Seq<char>,
) -> Seq<Span> {
    let slice = cut_out(bytes, start, end);
    if fits(tokens(slice.len() as int), max) {
        let more = if slice.len() > 0 {
            newlines(slice.drop_last())
        } else {
            0
        };
        seq![Span { start, end, first_line: line, last_line: capped(line + more), kind }]
    } else {
        packed(bytes, start, start, lesser(end, bytes.len() as int), line, max, kind)
    }
}

/// A piece is not empty, is within the limit, and ends where a character does.
pub proof fn lemma_piece_end(bytes: Seq<u8>, at: int, end: int, max: int)
    requires
        valid_utf8(bytes),
        0 <= at < end <= bytes.len(),
        is_char_boundary(bytes, at),
        is_char_boundary(bytes, end),
        0 < max,
    ensures
        at < piece_end(bytes, at, end, max) <= end,
        is_char_boundary(bytes, piece_end(bytes, at, end, max)),
        0 < tokens(piece_end(bytes, at, end, max) - at) <= max,
{
    let behind = line_end(bytes, at, end);
    lemma_line_end(bytes, at, end);
    if fits(tokens(behind - at), max) {
        if behind < end {
            lemma_cut_beside_ascii(bytes, behind);
        }
    } else {
        lemma_char_start(bytes, at, at + 4 * max);
    }
}

/// A run goes on to where a character ends, is not empty, and is within the
/// limit.
pub proof fn lemma_run_end(bytes: Seq<u8>, at: int, end: int, used: int, max: int)
    requires
        valid_utf8(bytes),
        0 <= at <= end <= bytes.len(),
        is_char_boundary(bytes, at),
        is_char_boundary(bytes, end),
        0 <= used <= max,
        0 < max,
    ensures
        at <= run_end(bytes, at, end, used, max) <= end,
        is_char_boundary(bytes, run_end(bytes, at, end, used, max)),
        used == 0 && at < end ==> at < run_end(bytes, at, end, used, max),
        used + tokens(run_end(bytes, at, end, used, max) - at) <= max,
    decreases end - at,
{
    if at < end {
        lemma_piece_end(bytes, at, end, max);
        let next = piece_end(bytes, at, end, max);
        let cost = tokens(next - at);
        if used == 0 || fits(used + cost, max) {
            lemma_run_end(bytes, next, end, used + cost, max);
        }
    }
}

/// Cuts the bytes from `start_byte` to `end_byte` of `source` into spans by
/// lines. Gives nothing where the range cannot be cut out of the text.
pub fn fallback_chunk_spans(
    source: &str,
    start_byte: usize,
    end_byte: usize,
    start_line: usize,
    max_tokens: usize,
    default_kind: &str,
) -> (spans: Option<Vec<ChunkSpan>>)
    ensures
        match spans {
            Some(spans) => range_ok(bytes_of(source@), start_byte as int, end_byte as int)
                && spans_of(spans@) == fallback_spans(
                bytes_of(source@),
                start_byte as int,
                end_byte as int,
                start_line as int,
                max_tokens as int,
                default_kind@,
            ),
            None => !range_ok(bytes_of(source@), start_byte as int, end_byte as int),
        },
{
    if !can_slice(source, start_byte, end_byte) {
        return None;
    }
    let bytes = source.as_bytes();
    let total: usize = bytes.len();
    let from: usize = if start_byte <= total {
        start_byte
    } else {
        total
    };
    let to: usize = if end_byte <= total {
        end_byte
    } else {
        total
    };
    let to: usize = if from <= to {
        to
    } else {
        from
    };
    let ghost slice = bytes@.subrange(from as int, to as int);
    assert(slice =~= cut_out(bytes@, start_byte as int, end_byte as int));
    let mut spans: Vec<ChunkSpan> = Vec::new();
    if fits_limits(estimate_tokens_from_len(to - from), max_tokens) {
        let more: usize = if from < to {
            count_newlines(bytes, from, to - 1)
        } else {
            0
        };
        proof {
            if from < to {
                assert(slice.drop_last() =~= bytes@.subrange(from as int, to - 1));
            }
        }
        let span = ChunkSpan {
            start_byte,
            end_byte,
            start_line,
            end_line: start_line.saturating_add(more),
            node_kind: default_kind.to_owned(),
        };
        spans.push(span);
        assert(spans_of(spans@) =~= fallback_spans(
            bytes@,
            start_byte as int,
            end_byte as int,
            start_line as int,
            max_tokens as int,
            default_kind@,
        ));
        return Some(spans);
    }
    let ghost whole = packed(
        bytes@,
        from as int,
        from as int,
        to as int,
        start_line as int,
        max_tokens as int,
        default_kind@,
    );
    proof {
        encode_utf8_valid_utf8(source@);
        assert(spans_of(spans@) + whole =~= whole);
        assert(bytes@.subrange(from as int, from as int) =~= Seq::<u8>::empty());
    }
    let mut at: usize = from;
    let mut before: usize = 0;
    while at < to
        invariant
            from <= at <= to <= bytes@.len(),
            bytes@ == bytes_of(source@),
            valid_utf8(bytes@),
            is_char_boundary(bytes@, at as int),
            is_char_boundary(bytes@, to as int),
            0 < max_tokens,
            before == newlines(bytes@.subrange(from as int, at as int)),
            before <= at - from,
            whole == spans_of(spans@) + packed(
                bytes@,
                from as int,
                at as int,
                to as int,
                start_line as int,
                max_tokens as int,
                default_kind@,
            ),
        decreases to - at,
    {
        let mut next: usize = at;
        let mut used: usize = 0;
        let mut open = true;
        while open && next < to
            invariant
                at <= next <= to <= bytes@.len(),
                bytes@ == bytes_of(source@),
                valid_utf8(bytes@),
                is_char_boundary(bytes@, next as int),
                is_char_boundary(bytes@, to as int),
                0 < max_tokens,
                used <= max_tokens,
                used == 0 <==> next == at,
                !open ==> next > at,
                run_end(bytes@, at as int, to as int, 0, max_tokens as int) == if open {
                    run_end(bytes@, next as int, to as int, used as int, max_tokens as int)
                } else {
                    next as int
                },
            decreases to - next + if open {
                1int
            } else {
                0
            },
        {
            proof {
                lemma_piece_end(bytes@, next as int, to as int, max_tokens as int);
            }
            let behind: usize = find_line_end(bytes, next, to);
            let stop: usize = if fits_limits(estimate_tokens_from_len(behind - next), max_tokens) {
                behind
            } else {
                find_char_start(source, next + 4 * max_tokens)
            };
            let cost: usize = estimate_tokens_from_len(stop - next);
            if used > 0 && cost > max_tokens - used {
                open = false;
            } else {
                used = used + cost;
                next = stop;
            }
        }
        proof {
            lemma_run_end(bytes@, at as int, to as int, 0, max_tokens as int);
            lemma_newlines_between(bytes@, from as int, at as int, next - 1);
            lemma_newlines_between(bytes@, from as int, at as int, next as int);
        }
        let inner: usize = count_newlines(bytes, at, next - 1);
        let all: usize = count_newlines(bytes, at, next);
        let span = ChunkSpan {
            start_byte: at,
            end_byte: next,
            start_line: start_line.saturating_add(before),
            end_line: start_line.saturating_add(before + inner),
            node_kind: default_kind.to_owned(),
        };
        proof {
            let rest = packed(
                bytes@,
                from as int,
                next as int,
                to as int,
                start_line as int,
                max_tokens as int,
                default_kind@,
            );
            assert(spans_of(spans@.push(span)) =~= spans_of(spans@).push(span@));
            assert(spans_of(spans@) + (seq![span@] + rest) =~= spans_of(spans@).push(span@) + rest);
        }
        spans.push(span);
        before = before + all;
        at = next;
    }
    proof {
        assert(packed(
            bytes@,
            from as int,
            to as int,
            to as int,
            start_line as int,
            max_tokens as int,
            default_kind@,
        ) =~= Seq::<Span>::empty());
        assert(spans_of(spans@) + Seq::<Span>::empty() =~= spans_of(spans@));
    }
    Some(spans)
}

// ---------------------------------------------------------------------------
// Merging
// ---------------------------------------------------------------------------

/// The distance from `from` to `to`, zero where `to` lies before `from`.
pub open spec fn distance(from: int, to: int) -> int {
    if from <= to {
        to - from
    } else {
        0
    }
}

/// Two spans as one, which takes the kind of their parent unless they lie on
/// the same bytes.
pub open spec fn combined(a: Span, b: Span, parent_kind: Seq<char>) -> Span {
    Span {
        start: a.start,
        end: b.end,
        first_line: a.first_line,
        last_line: b.last_line,
        kind: if a.start == b.start && a.end == b.end {
            a.kind
        } else {
            parent_kind
        },
    }
}

/// `active` and the spans behind it, where each span joins the one before it
/// as long as the two together stay within the limit.
pub open spec fn merged_from(
    active: Span,
    rest: Seq<Span>,
    max: int,
    parent_kind: Seq<char>,
) -> Seq<Span>
    decreases rest.len(),
{
    if rest.len() == 0 {
        seq![active]
    } else if fits(tokens(distance(active.start, rest[0].end)), max) {
        merged_from(combined(active, rest[0], parent_kind), rest.drop_first(), max, parent_kind)
    } else {
        seq![active] + merged_from(rest[0], rest.drop_first(), max, parent_kind)
    }
}

/// Neighbouring spans merged as far as the limit allows.
pub open spec fn merged(spans: Seq<Span>, max: int, parent_kind: Seq<char>) -> Seq<Span> {
    if spans.len() == 0 {
        Seq::empty()
    } else {
        merged_from(spans[0], spans.drop_first(), max, parent_kind)
    }
}

/// Merges neighbouring spans as far as `max_tokens` allows.
pub fn merge_spans(spans: Vec<ChunkSpan>, max_tokens: usize, parent_kind: &str) -> (out: Vec<
    ChunkSpan,
>)
    ensures
        spans_of(out@) == merged(spans_of(spans@), max_tokens as int, parent_kind@),
{
    let mut out: Vec<ChunkSpan> = Vec::new();
    let ghost all = spans_of(spans@);
    if spans.len() == 0 {
        assert(spans_of(out@) =~= merged(all, max_tokens as int, parent_kind@));
        return out;
    }
    let mut active = copy_span(&spans[0]);
    let mut i: usize = 1;
    proof {
        assert(all.drop_first() =~= all.skip(1));
        let whole = merged(all, max_tokens as int, parent_kind@);
        assert(spans_of(out@) + whole =~= whole);
    }
    while i < spans.len()
        invariant
            1 <= i <= spans@.len(),
            all == spans_of(spans@),
            merged(all, max_tokens as int, parent_kind@) == spans_of(out@) + merged_from(
                active@,
                all.skip(i as int),
                max_tokens as int,
                parent_kind@,
            ),
        decreases spans@.len() - i,
    {
        let ghost rest = all.skip(i as int);
        proof {
            assert(rest[0] == spans@[i as int]@);
            assert(rest.drop_first() =~= all.skip(i + 1));
        }
        let next = copy_span(&spans[i]);
        let length: usize = next.end_byte.saturating_sub(active.start_byte);
        if fits_limits(estimate_tokens_from_len(length), max_tokens) {
            let kind: String = if active.start_byte == next.start_byte && active.end_byte
                == next.end_byte {
                active.node_kind.clone()
            } else {
                parent_kind.to_owned()
            };
            active = ChunkSpan {
                start_byte: active.start_byte,
                end_byte: next.end_byte,
                start_line: active.start_line,
                end_line: next.end_line,
                node_kind: kind,
            };
        } else {
            proof {
                let behind = merged_from(
                    next@,
                    all.skip(i + 1),
                    max_tokens as int,
                    parent_kind@,
                );
                assert(spans_of(out@.push(active)) =~= spans_of(out@).push(active@));
                assert(spans_of(out@) + (seq![active@] + behind) =~= spans_of(out@).push(active@)
                    + behind);
            }
            out.push(active);
            active = next;
        }
        i = i + 1;
    }
    proof {
        assert(all.skip(i as int).len() == 0);
        assert(spans_of(out@.push(active)) =~= spans_of(out@) + seq![active@]);
    }
    out.push(active);
    out
}

// ---------------------------------------------------------------------------
// Order
// ---------------------------------------------------------------------------

impl Ranked for ChunkSpan {
    /// The first order is by start; the second puts longer spans first, and of
    /// two with one length the one that starts first.
    open spec fn rank(item: Span, second: bool) -> (int, int) {
        if second {
            (usize::MAX - distance(item.start, item.end), item.start)
        } else {
            (item.start, 0)
        }
    }

    fn rank_of(&self, second: bool) -> (rank: (usize, usize)) {
        if second {
            (usize::MAX - self.end_byte.saturating_sub(self.start_byte), self.start_byte)
        } else {
            (self.start_byte, 0)
        }
    }
}

/// Spans in the order in which they start.
pub open spec fn by_start(spans: Seq<Span>) -> Seq<Span> {
    in_order(spans, ranking::<ChunkSpan>(false))
}

/// Spans with the longer ones first.
pub open spec fn by_size(spans: Seq<Span>) -> Seq<Span> {
    in_order(spans, ranking::<ChunkSpan>(true))
}

// ---------------------------------------------------------------------------
// Pruning
// ---------------------------------------------------------------------------

/// Whether `inner` lies inside `outer`.
pub open spec fn inside(inner: Span, outer: Span) -> bool {
    outer.start <= inner.start && outer.end >= inner.end
}

/// Whether `inner` lies inside `outer`.
pub fn span_contained_by(inner: &ChunkSpan, outer: &ChunkSpan) -> (is: bool)
    ensures
        is == inside(inner@, outer@),
{
    outer.start_byte <= inner.start_byte && outer.end_byte >= inner.end_byte
}

/// Whether `span` lies inside some span of `others`.
pub open spec fn inside_any(span: Span, others: Seq<Span>) -> bool {
    exists|k: int| 0 <= k < others.len() && inside(span, #[trigger] others[k])
}

/// The spans that lie inside none before them.
pub open spec fn outermost(spans: Seq<Span>) -> Seq<Span>
    decreases spans.len(),
{
    if spans.len() == 0 {
        spans
    } else {
        let init = outermost(spans.drop_last());
        if inside_any(spans.last(), spans.drop_last()) {
            init
        } else {
            init.push(spans.last())
        }
    }
}

/// The spans that lie inside no longer span, in the order in which they start.
pub open spec fn pruned(spans: Seq<Span>) -> Seq<Span> {
    by_start(outermost(by_size(spans)))
}

/// Lying inside a span is the same as lying inside one that was kept.
pub proof fn lemma_outermost_covers(spans: Seq<Span>, span: Span)
    ensures
        inside_any(span, outermost(spans)) == inside_any(span, spans),
    decreases spans.len(),
{
    if spans.len() > 0 {
        let before = spans.drop_last();
        let last = spans.last();
        let kept = outermost(before);
        lemma_outermost_covers(before, span);
        lemma_outermost_covers(before, last);
        if inside_any(span, outermost(spans)) {
            let k = choose|k: int|
                0 <= k < outermost(spans).len() && inside(span, #[trigger] outermost(spans)[k]);
            if inside_any(last, before) || k < kept.len() {
                assert(inside(span, kept[k]));
                let j = choose|j: int| 0 <= j < before.len() && inside(span, #[trigger] before[j]);
                assert(spans[j] == before[j]);
            } else {
                assert(spans[spans.len() - 1] == last);
            }
        }
        if inside_any(span, spans) {
            let k = choose|k: int| 0 <= k < spans.len() && inside(span, #[trigger] spans[k]);
            if k < before.len() {
                assert(before[k] == spans[k]);
                let j = choose|j: int| 0 <= j < kept.len() && inside(span, #[trigger] kept[j]);
                assert(outermost(spans)[j] == kept[j]);
            } else if inside_any(last, before) {
                let j = choose|j: int| 0 <= j < kept.len() && inside(last, #[trigger] kept[j]);
                assert(inside(span, outermost(spans)[j]));
            } else {
                assert(outermost(spans)[kept.len() as int] == last);
            }
        }
    }
}

/// Drops each span that lies inside a longer one, or inside one of the same
/// length that comes before it.
pub fn prune_contained_spans(spans: Vec<ChunkSpan>) -> (out: Vec<ChunkSpan>)
    ensures
        spans_of(out@) == pruned(spans_of(spans@)),
{
    let sorted = sort_items(spans, true);
    let ghost order = spans_of(sorted@);
    let mut kept: Vec<ChunkSpan> = Vec::new();
    let mut i: usize = 0;
    assert(spans_of(kept@) =~= outermost(order.take(0)));
    while i < sorted.len()
        invariant
            i <= sorted@.len(),
            order == spans_of(sorted@),
            spans_of(kept@) == outermost(order.take(i as int)),
        decreases sorted@.len() - i,
    {
        let ghost before = order.take(i as int);
        proof {
            assert(order.take(i + 1).drop_last() =~= before);
            lemma_outermost_covers(before, sorted@[i as int]@);
        }
        let mut covered = false;
        let mut k: usize = 0;
        while k < kept.len() && !covered
            invariant
                i < sorted@.len(),
                k <= kept@.len(),
                covered == exists|j: int|
                    0 <= j < k && inside(sorted@[i as int]@, (#[trigger] kept@[j])@),
            decreases kept@.len() - k + if covered {
                0int
            } else {
                1
            },
        {
            if span_contained_by(&sorted[i], &kept[k]) {
                covered = true;
            }
            k = k + 1;
        }
        proof {
            let span = sorted@[i as int]@;
            if covered {
                let j = choose|j: int| 0 <= j < k && inside(span, (#[trigger] kept@[j])@);
                assert(inside(span, spans_of(kept@)[j]));
            } else if inside_any(span, spans_of(kept@)) {
                let j = choose|j: int|
                    0 <= j < kept@.len() && inside(span, #[trigger] spans_of(kept@)[j]);
                assert(inside(span, kept@[j]@));
            }
        }
        if !covered {
            let span = copy_span(&sorted[i]);
            assert(spans_of(kept@.push(span)) =~= spans_of(kept@).push(span@));
            kept.push(span);
        }
        i = i + 1;
    }
    assert(order.take(i as int) =~= order);
    sort_items(kept, false)
}

// ---------------------------------------------------------------------------
// Overlap
// ---------------------------------------------------------------------------

/// By how many bytes a span reaches back into what stands before it. The
/// overlap stays below the limit of a chunk.
pub open spec fn overlap_bytes(overlap: int, max: int) -> int {
    let tokens = if max == 0 {
        overlap
    } else {
        lesser(overlap, max - 1)
    };
    capped(tokens * 4)
}

/// Where a span starts before it is moved to the start of a line.
pub open spec fn reached_back(span: Span, back: int) -> int {
    if back <= span.start {
        span.start - back
    } else {
        0
    }
}

/// Where a span starts that reaches back to byte `from`: at the start of the line
/// there, or, where that line exceeds the limit and is cut itself, at the start of
/// the character there.
pub open spec fn overlap_start(bytes: Seq<u8>, from: int, max: int) -> int {
    let line = line_start(bytes, from);
    if fits(tokens(line_end(bytes, from, bytes.len() as int) - line), max) {
        line
    } else {
        char_start(bytes, from)
    }
}

/// A span that reaches back by `back` bytes, and from there to the start of the
/// line or, in a line that exceeds the limit, of the character.
pub open spec fn overlapping(span: Span, bytes: Seq<u8>, back: int, max: int) -> Span {
    let from = reached_back(span, back);
    if from == span.start {
        span
    } else {
        let start = overlap_start(bytes, lesser(from, bytes.len() as int), max);
        Span {
            start,
            first_line: capped(1 + newlines(bytes.take(lesser(start, bytes.len() as int)))),
            ..span
        }
    }
}

/// Spans of which each but the first reaches back into what stands before it.
pub open spec fn overlapped(spans: Seq<Span>, bytes: Seq<u8>, overlap: int, max: int) -> Seq<Span> {
    let back = overlap_bytes(overlap, max);
    Seq::new(
        spans.len(),
        |i: int|
            if i == 0 || back == 0 {
                spans[i]
            } else {
                overlapping(spans[i], bytes, back, max)
            },
    )
}

/// Lets each span but the first reach back into what stands before it.
pub fn apply_overlap(
    spans: Vec<ChunkSpan>,
    source: &str,
    overlap_tokens: usize,
    max_tokens: usize,
) -> (out: Vec<ChunkSpan>)
    ensures
        spans_of(out@) == overlapped(
            spans_of(spans@),
            bytes_of(source@),
            overlap_tokens as int,
            max_tokens as int,
        ),
{
    let ghost all = spans_of(spans@);
    let ghost bytes = bytes_of(source@);
    let effective: usize = if max_tokens == 0 {
        overlap_tokens
    } else if overlap_tokens <= max_tokens - 1 {
        overlap_tokens
    } else {
        max_tokens - 1
    };
    let back: usize = if effective <= usize::MAX / 4 {
        effective * 4
    } else {
        usize::MAX
    };
    let ghost done = overlapped(all, bytes, overlap_tokens as int, max_tokens as int);
    let mut out: Vec<ChunkSpan> = Vec::new();
    let mut i: usize = 0;
    while i < spans.len()
        invariant
            i <= spans@.len(),
            all == spans_of(spans@),
            bytes == bytes_of(source@),
            back == overlap_bytes(overlap_tokens as int, max_tokens as int),
            done == overlapped(all, bytes, overlap_tokens as int, max_tokens as int),
            spans_of(out@) == done.take(i as int),
        decreases spans@.len() - i,
    {
        let start: usize = spans[i].start_byte.saturating_sub(back);
        let mut span = copy_span(&spans[i]);
        assert(all[i as int] == spans@[i as int]@);
        if i > 0 && start != span.start_byte {
            let first: usize = line_start_for_byte(source, start);
            let raw = source.as_bytes();
            let total: usize = raw.len();
            let from: usize = if start <= total {
                start
            } else {
                total
            };
            let behind: usize = if from < total {
                find_line_end(raw, from, total)
            } else {
                total
            };
            proof {
                lemma_line_start(bytes, from as int);
            }
            let adjusted: usize = if fits_limits(
                estimate_tokens_from_len(behind - first),
                max_tokens,
            ) {
                first
            } else {
                find_char_start(source, from)
            };
            let line: usize = line_for_byte(source, adjusted);
            span = ChunkSpan {
                start_byte: adjusted,
                end_byte: span.end_byte,
                start_line: line,
                end_line: span.end_line,
                node_kind: span.node_kind,
            };
        }
        proof {
            assert(span@ =~= done[i as int]);
            assert(spans_of(out@.push(span)) =~= spans_of(out@).push(span@));
            assert(done.take(i + 1) =~= done.take(i as int).push(done[i as int]));
        }
        out.push(span);
        i = i + 1;
    }
    assert(done.take(i as int) =~= done);
    out
}

} // verus!
