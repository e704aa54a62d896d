//! What the spans of a text that is cut along its structural nodes hold of it.
use crate::chunker::structural_plan;
use crate::lines::{bytes_of, capped, cut_ok, newlines, range_ok};
use crate::nodes::{
    captured_span, child_spans, children_of, distinct_spans, lemma_open_before, node_order,
    node_spans, parent_of, root_spans, structural_spans, CaptureView, NodeSpan,
};
use crate::sorting::{
    ascending, in_order, lemma_in_order, lemma_in_order_contains, placed, rank_le, ranking,
};
use crate::span_laws::{
    adjoining, law_fallback_covers, law_fallback_tells_lines, law_overlap, law_pruned,
};
use crate::spans::{
    by_start, combined, distance, fallback_spans, fits, inside, inside_any, merged, merged_from,
    pruned, tokens, ChunkSpan, Span,
};
use vstd::prelude::*;
use vstd::utf8::*;

verus! {

// ---------------------------------------------------------------------------
// Sizes
// ---------------------------------------------------------------------------

/// How many tokens are estimated: as many as are needed with four bytes each.
pub proof fn law_tokens(len: int)
    requires
        0 <= len,
    ensures
        len <= 4 * tokens(len),
        4 * (tokens(len) - 1) < len,
{
}

/// A limit counts tokens of four bytes; the limit zero is none.
pub proof fn law_limit(from: int, to: int, max: int)
    requires
        from <= to,
        0 <= max,
    ensures
        fits(tokens(distance(from, to)), max) <==> max == 0 || to - from <= 4 * max,
{
}

/// Line feeds are counted one by one.
pub proof fn law_newlines(bytes: Seq<u8>)
    ensures
        newlines(bytes) == bytes.filter(|byte: u8| byte == 10).len(),
    decreases bytes.len(),
{
    reveal(Seq::filter);
    if bytes.len() > 0 {
        law_newlines(bytes.drop_last());
    }
}

// ---------------------------------------------------------------------------
// Lists of spans
// ---------------------------------------------------------------------------

/// Whether spans lie between `from` and `to`, each behind the one before it.
pub open spec fn lined_up(spans: Seq<Span>, from: int, to: int) -> bool {
    &&& forall|i: int|
        0 <= i < spans.len() ==> from <= (#[trigger] spans[i]).start <= spans[i].end <= to
    &&& forall|i: int, j: int|
        0 <= i < j < spans.len() ==> (#[trigger] spans[i]).end <= (#[trigger] spans[j]).start
}

/// Whether one of some spans holds all bytes from `from` to `to`.
pub open spec fn held(from: int, to: int, spans: Seq<Span>) -> bool {
    exists|k: int|
        0 <= k < spans.len() && (#[trigger] spans[k]).start <= from && to <= spans[k].end
}

/// Whether each of some spans is held by one of others.
pub open spec fn all_held(spans: Seq<Span>, others: Seq<Span>) -> bool {
    forall|i: int| 0 <= i < spans.len() ==> held((#[trigger] spans[i]).start, spans[i].end, others)
}

/// Spans that stand one behind the other are lined up, and each byte is in one.
proof fn lemma_adjoining(spans: Seq<Span>, from: int, to: int)
    requires
        adjoining(spans, from, to),
    ensures
        from <= to,
        lined_up(spans, from, to),
        forall|at: int| from <= at < to ==> #[trigger] held(at, at + 1, spans),
    decreases spans.len(),
{
    if spans.len() > 0 {
        let rest = spans.drop_first();
        lemma_adjoining(rest, spans[0].end, to);
        assert forall|i: int| 0 <= i < spans.len() implies from <= (#[trigger] spans[i]).start
            <= spans[i].end <= to by {
            if i > 0 {
                assert(spans[i] == rest[i - 1]);
            }
        }
        assert forall|i: int, j: int| 0 <= i < j < spans.len() implies (#[trigger] spans[i]).end
            <= (#[trigger] spans[j]).start by {
            assert(spans[j] == rest[j - 1]);
            if i > 0 {
                assert(spans[i] == rest[i - 1]);
            }
        }
        assert forall|at: int| from <= at < to implies #[trigger] held(at, at + 1, spans) by {
            if at < spans[0].end {
                assert(spans[0].start <= at);
            } else {
                assert(held(at, at + 1, rest));
                let k = choose|k: int|
                    0 <= k < rest.len() && (#[trigger] rest[k]).start <= at && at + 1
                        <= rest[k].end;
                assert(spans[k + 1] == rest[k]);
            }
        }
    }
}

/// A list that is in order stays as it is when it is sorted.
pub proof fn law_sorted_stays<A>(items: Seq<A>, rank: spec_fn(A) -> (int, int))
    requires
        ascending(items, rank),
    ensures
        in_order(items, rank) == items,
    decreases items.len(),
{
    if items.len() > 0 {
        let before = items.drop_last();
        assert(ascending(before, rank)) by {
            assert forall|i: int, j: int| 0 <= i < j < before.len() implies rank_le(
                rank(#[trigger] before[i]),
                rank(#[trigger] before[j]),
            ) by {
                assert(before[i] == items[i] && before[j] == items[j]);
            }
        }
        law_sorted_stays(before, rank);
        if before.len() > 0 {
            assert(rank_le(rank(items[before.len() - 1]), rank(items[before.len() as int])));
        }
        assert(before.push(items.last()) =~= items);
    }
}

/// Items of one rank keep their order when a list is sorted.
pub proof fn law_sorting_is_stable<A>(items: Seq<A>, rank: spec_fn(A) -> (int, int), own: (int, int))
    ensures
        in_order(items, rank).filter(|item: A| rank(item) == own) == items.filter(
            |item: A| rank(item) == own,
        ),
    decreases items.len(),
{
    reveal(Seq::filter);
    let same = |item: A| rank(item) == own;
    if items.len() > 0 {
        let before = items.drop_last();
        law_sorting_is_stable(before, rank, own);
        lemma_in_order(before, rank);
        lemma_placed_stable(in_order(before, rank), items.last(), rank, own);
    }
}

/// An item that is put in its place stands behind those of its rank.
proof fn lemma_placed_stable<A>(
    sorted: Seq<A>,
    item: A,
    rank: spec_fn(A) -> (int, int),
    own: (int, int),
)
    requires
        ascending(sorted, rank),
    ensures
        placed(sorted, item, rank).filter(|item: A| rank(item) == own) == if rank(item) == own {
            sorted.filter(|item: A| rank(item) == own).push(item)
        } else {
            sorted.filter(|item: A| rank(item) == own)
        },
    decreases sorted.len(),
{
    reveal(Seq::filter);
    let same = |item: A| rank(item) == own;
    if sorted.len() == 0 || rank_le(rank(sorted.last()), rank(item)) {
        assert(sorted.push(item).drop_last() =~= sorted);
    } else {
        let before = sorted.drop_last();
        assert(ascending(before, rank)) by {
            assert forall|i: int, j: int| 0 <= i < j < before.len() implies rank_le(
                rank(#[trigger] before[i]),
                rank(#[trigger] before[j]),
            ) by {
                assert(before[i] == sorted[i] && before[j] == sorted[j]);
            }
        }
        lemma_placed_stable(before, item, rank, own);
        let inner = placed(before, item, rank);
        assert(inner.push(sorted.last()).drop_last() =~= inner);
    }
}

/// Spans that are lined up stand in the order of their starts.
proof fn lemma_lined_up_in_order(spans: Seq<Span>, from: int, to: int)
    requires
        lined_up(spans, from, to),
    ensures
        by_start(spans) == spans,
{
    let rank = ranking::<ChunkSpan>(false);
    assert forall|i: int, j: int| 0 <= i < j < spans.len() implies rank_le(
        rank(#[trigger] spans[i]),
        rank(#[trigger] spans[j]),
    ) by {
        assert(spans[i].start <= spans[i].end);
    }
    law_sorted_stays(spans, rank);
}

/// Merging spans that are lined up leaves them lined up and holds each of them. A
/// span that it leaves is one of them, or stands for several and has the kind that
/// was given, and no two neighbours would fit together.
pub proof fn law_merged_holds(spans: Seq<Span>, max: int, kind: Seq<char>, from: int, to: int)
    requires
        lined_up(spans, from, to),
        0 <= max,
    ensures
        ({
            let out = merged(spans, max, kind);
            &&& lined_up(out, from, to)
            &&& all_held(spans, out)
            &&& forall|i: int|
                0 <= i < out.len() ==> spans.contains(#[trigger] out[i]) || out[i].kind == kind
                    || exists|k: int|
                    0 <= k < spans.len() && (#[trigger] spans[k]).kind == out[i].kind
                        && spans[k].start == out[i].start && spans[k].end == out[i].end
            &&& out.len() > 1 ==> max > 0
            &&& forall|i: int, j: int|
                0 <= i < j < out.len() ==> (#[trigger] out[j]).end - (#[trigger] out[i]).start > 4
                    * max
        }),
{
    if spans.len() > 0 {
        assert(seq![spans[0]] + spans.drop_first() =~= spans);
        assert forall|k: int| 0 <= k < spans.drop_first().len() implies spans.contains(
            #[trigger] spans.drop_first()[k],
        ) by {
            assert(spans[k + 1] == spans.drop_first()[k]);
        }
        assert(spans.contains(spans[0]));
        lemma_merged_holds(spans[0], spans.drop_first(), max, kind, from, to, spans);
        let out = merged(spans, max, kind);
        assert forall|i: int| 0 <= i < out.len() implies spans.contains(#[trigger] out[i])
            || out[i].kind == kind || exists|k: int|
            0 <= k < spans.len() && (#[trigger] spans[k]).kind == out[i].kind && spans[k].start
                == out[i].start && spans[k].end == out[i].end by {
            assert(comes_from(out[i], spans, kind));
        }
    }
}

/// Where a merged span comes from.
spec fn comes_from(span: Span, spans: Seq<Span>, kind: Seq<char>) -> bool {
    spans.contains(span) || span.kind == kind || exists|k: int|
        0 <= k < spans.len() && (#[trigger] spans[k]).kind == span.kind && spans[k].start
            == span.start && spans[k].end == span.end
}

/// Merging on from a span.
proof fn lemma_merged_holds(
    active: Span,
    rest: Seq<Span>,
    max: int,
    kind: Seq<char>,
    from: int,
    to: int,
    all: Seq<Span>,
)
    requires
        lined_up(seq![active] + rest, from, to),
        0 <= max,
        comes_from(active, all, kind),
        forall|k: int| 0 <= k < rest.len() ==> all.contains(#[trigger] rest[k]),
    ensures
        ({
            let out = merged_from(active, rest, max, kind);
            &&& out.len() > 0
            &&& lined_up(out, from, to)
            &&& out[0].start == active.start
            &&& out[0].end >= active.end
            &&& all_held(seq![active] + rest, out)
            &&& forall|i: int| 0 <= i < out.len() ==> comes_from(#[trigger] out[i], all, kind)
            &&& out.len() > 1 ==> max > 0
            &&& forall|i: int, j: int|
                0 <= i < j < out.len() ==> (#[trigger] out[j]).end - (#[trigger] out[i]).start > 4
                    * max
        }),
    decreases rest.len(),
{
    let out = merged_from(active, rest, max, kind);
    let list = seq![active] + rest;
    assert(list[0] == active);
    if rest.len() == 0 {
        assert(out[0] == active);
        assert(lined_up(out, from, to)) by {
            assert(from <= list[0].start <= list[0].end <= to);
        }
        assert forall|i: int| 0 <= i < out.len() implies comes_from(#[trigger] out[i], all, kind) by {}
        assert forall|i: int| 0 <= i < list.len() implies held(
            (#[trigger] list[i]).start,
            list[i].end,
            out,
        ) by {
            assert(out[0].start <= list[i].start && list[i].end <= out[0].end);
        }
    } else {
        let behind = rest.drop_first();
        let first = rest[0];
        assert(list[1] == first);
        let joins = fits(tokens(distance(active.start, first.end)), max);
        let next = if joins {
            combined(active, first, kind)
        } else {
            first
        };
        let short = seq![next] + behind;
        assert(short[0] == next);
        assert forall|i: int| 1 <= i < short.len() implies #[trigger] short[i] == list[i + 1] by {
            assert(short[i] == behind[i - 1]);
            assert(list[i + 1] == rest[i]);
        }
        assert(list[0].start <= list[0].end && list[0].end <= list[1].start && list[1].start
            <= list[1].end);
        assert(lined_up(short, from, to)) by {
            assert forall|i: int| 0 <= i < short.len() implies from <= (#[trigger] short[i]).start
                <= short[i].end <= to by {
                if i > 0 {
                    assert(from <= list[i + 1].start <= list[i + 1].end <= to);
                }
            }
            assert forall|i: int, j: int|
                0 <= i < j < short.len() implies (#[trigger] short[i]).end <= (
            #[trigger] short[j]).start by {
                assert(short[j] == list[j + 1]);
                if i > 0 {
                    assert(short[i] == list[i + 1]);
                    assert(list[i + 1].end <= list[j + 1].start);
                } else {
                    assert(list[1].end <= list[j + 1].start);
                }
            }
        }
        assert(all.contains(rest[0]));
        assert(comes_from(next, all, kind)) by {
            if joins && active.start == first.start && active.end == first.end {
                if all.contains(active) {
                    let k = choose|k: int| 0 <= k < all.len() && all[k] == active;
                    assert(all[k].kind == next.kind && all[k].start == next.start && all[k].end
                        == next.end);
                } else if active.kind != kind {
                    let k = choose|k: int|
                        0 <= k < all.len() && (#[trigger] all[k]).kind == active.kind
                            && all[k].start == active.start && all[k].end == active.end;
                    assert(all[k].kind == next.kind && all[k].start == next.start && all[k].end
                        == next.end);
                }
            }
        }
        assert forall|k: int| 0 <= k < behind.len() implies all.contains(#[trigger] behind[k]) by {
            assert(behind[k] == rest[k + 1]);
        }
        lemma_merged_holds(next, behind, max, kind, from, to, all);
        let tail = merged_from(next, behind, max, kind);
        if joins {
            assert(out == tail);
            assert forall|i: int| 0 <= i < list.len() implies held(
                (#[trigger] list[i]).start,
                list[i].end,
                out,
            ) by {
                assert(held(short[0].start, short[0].end, out));
                let k = choose|k: int|
                    0 <= k < out.len() && (#[trigger] out[k]).start <= short[0].start
                        && short[0].end <= out[k].end;
                if i == 0 {
                    assert(list[0].end <= list[1].start);
                    assert(list[1].start <= list[1].end);
                    assert(out[k].start <= list[0].start && list[0].end <= out[k].end);
                } else if i == 1 {
                    assert(list[0].start <= list[0].end);
                    assert(list[0].end <= list[1].start);
                    assert(out[k].start <= list[1].start && list[1].end <= out[k].end);
                } else {
                    assert(short[i - 1] == list[i]);
                    assert(held(short[i - 1].start, short[i - 1].end, out));
                }
            }
        } else {
            assert(out =~= seq![active] + tail);
            assert forall|i: int| 0 <= i < list.len() implies held(
                (#[trigger] list[i]).start,
                list[i].end,
                out,
            ) by {
                if i == 0 {
                    assert(out[0] == active);
                    assert(out[0].start <= list[0].start && list[0].end <= out[0].end);
                } else {
                    assert(short[i - 1] == list[i]);
                    assert(held(short[i - 1].start, short[i - 1].end, tail));
                    let k = choose|k: int|
                        0 <= k < tail.len() && (#[trigger] tail[k]).start <= list[i].start
                            && list[i].end <= tail[k].end;
                    assert(out[k + 1] == tail[k]);
                }
            }
            assert(lined_up(out, from, to)) by {
                assert forall|i: int| 0 <= i < out.len() implies from <= (#[trigger] out[i]).start
                    <= out[i].end <= to by {
                    if i > 0 {
                        assert(out[i] == tail[i - 1]);
                    } else {
                        assert(from <= list[0].start <= list[0].end <= to);
                    }
                }
                assert forall|i: int, j: int|
                    0 <= i < j < out.len() implies (#[trigger] out[i]).end <= (
                #[trigger] out[j]).start by {
                    assert(out[j] == tail[j - 1]);
                    if i > 0 {
                        assert(out[i] == tail[i - 1]);
                    } else {
                        assert(list[0].end <= list[1].start);
                        assert(tail[0].start == next.start);
                        if j > 1 {
                            assert(tail[0].end <= tail[j - 1].start);
                            assert(tail[0].start <= tail[0].end);
                        }
                    }
                }
            }
            assert forall|i: int| 0 <= i < out.len() implies comes_from(
                #[trigger] out[i],
                all,
                kind,
            ) by {
                if i > 0 {
                    assert(out[i] == tail[i - 1]);
                }
            }
            law_limit(active.start, first.end, max);
            assert forall|i: int, j: int| 0 <= i < j < out.len() implies (#[trigger] out[j]).end - (
            #[trigger] out[i]).start > 4 * max by {
                assert(out[j] == tail[j - 1]);
                if i > 0 {
                    assert(out[i] == tail[i - 1]);
                } else if j > 1 {
                    assert(tail[0].end <= tail[j - 1].start);
                    assert(tail[j - 1].start <= tail[j - 1].end);
                }
            }
        }
    }
}

// ---------------------------------------------------------------------------
// How nodes lie
// ---------------------------------------------------------------------------

/// Whether nodes stand in the order of their starts, each inside the text and cut
/// out of it between characters.
pub open spec fn well_placed(nodes: Seq<Span>, bytes: Seq<u8>) -> bool {
    &&& forall|i: int|
        0 <= i < nodes.len() ==> {
            &&& 0 <= (#[trigger] nodes[i]).start <= nodes[i].end <= bytes.len()
            &&& is_char_boundary(bytes, nodes[i].start)
            &&& is_char_boundary(bytes, nodes[i].end)
        }
    &&& forall|i: int, j: int|
        0 <= i < j < nodes.len() ==> (#[trigger] nodes[i]).start <= (#[trigger] nodes[j]).start
}

/// A node lies in the last one before it that reaches behind its start, if that one
/// reaches to its end: of the nodes before it that hold it, in the innermost.
pub proof fn law_parent(nodes: Seq<Span>, index: int)
    requires
        0 <= index < nodes.len(),
    ensures
        match parent_of(nodes, index) {
            Some(parent) => {
                &&& 0 <= parent < index
                &&& nodes[index].start < nodes[parent].end
                &&& nodes[index].end <= nodes[parent].end
                &&& forall|k: int|
                    parent < k < index ==> (#[trigger] nodes[k]).end <= nodes[index].start
            },
            None => forall|k: int|
                0 <= k < index && nodes[index].start < (#[trigger] nodes[k]).end && nodes[index].end
                    <= nodes[k].end ==> exists|m: int|
                    k < m < index && nodes[index].start < (#[trigger] nodes[m]).end
                        < nodes[index].end,
        },
{
    lemma_open_before(nodes, index, index);
    if parent_of(nodes, index) is None {
        assert forall|k: int|
            0 <= k < index && nodes[index].start < (#[trigger] nodes[k]).end && nodes[index].end
                <= nodes[k].end implies exists|m: int|
            k < m < index && nodes[index].start < (#[trigger] nodes[m]).end < nodes[index].end by {
            let at = crate::nodes::open_before(nodes, index, index)->0;
            assert(nodes[index].start < nodes[at].end < nodes[index].end);
        }
    }
}

/// Two nodes in one parent do not overlap: the first has ended where the second
/// starts.
pub proof fn law_siblings_apart(nodes: Seq<Span>, parent: int, first: int, second: int)
    requires
        0 <= first < second < nodes.len(),
        parent_of(nodes, first) == Some(parent),
        parent_of(nodes, second) == Some(parent),
    ensures
        nodes[first].end <= nodes[second].start,
{
    law_parent(nodes, first);
    law_parent(nodes, second);
}

/// The children of a node are the nodes whose parent it is.
proof fn lemma_children_known(nodes: Seq<Span>, parent: int, before: int)
    requires
        0 <= before,
    ensures
        ({
            let children = children_of(nodes, parent, before);
            &&& forall|i: int|
                0 <= i < children.len() ==> 0 <= #[trigger] children[i] < before && parent_of(
                    nodes,
                    children[i],
                ) == Some(parent)
            &&& forall|i: int, j: int|
                0 <= i < j < children.len() ==> #[trigger] children[i] < #[trigger] children[j]
            &&& forall|c: int|
                0 <= c < before && #[trigger] parent_of(nodes, c) == Some(parent)
                    ==> children.contains(c)
        }),
    decreases before,
{
    if before > 0 {
        lemma_children_known(nodes, parent, before - 1);
        let init = children_of(nodes, parent, before - 1);
        let all = children_of(nodes, parent, before);
        if parent_of(nodes, before - 1) == Some(parent) {
            assert(all[init.len() as int] == before - 1);
        }
        assert forall|c: int|
            0 <= c < before && #[trigger] parent_of(nodes, c) == Some(parent) implies all.contains(
            c,
        ) by {
            if c < before - 1 {
                assert(init.contains(c));
                let k = choose|k: int| 0 <= k < init.len() && init[k] == c;
                assert(all[k] == c);
            }
        }
        assert forall|i: int| 0 <= i < all.len() implies 0 <= #[trigger] all[i] < before
            && parent_of(nodes, all[i]) == Some(parent) by {
            if i < init.len() {
                assert(all[i] == init[i]);
            }
        }
        assert forall|i: int, j: int| 0 <= i < j < all.len() implies #[trigger] all[i]
            < #[trigger] all[j] by {
            assert(all[i] == init[i]);
            if j < init.len() {
                assert(all[j] == init[j]);
            }
        }
    }
}

// ---------------------------------------------------------------------------
// What the spans of a node tell
// ---------------------------------------------------------------------------

/// Whether a span tells the line where it starts, and the line of its last byte or,
/// where that is a line feed, the line behind it.
pub open spec fn tells_lines(span: Span, bytes: Seq<u8>) -> bool {
    &&& span.first_line == capped(1 + newlines(bytes.take(span.start)))
    &&& span.last_line == capped(1 + newlines(bytes.take(span.end))) || (span.start < span.end
        && span.last_line == capped(1 + newlines(bytes.take(span.end - 1))))
}

/// Whether a span lies in a node of its kind.
pub open spec fn has_kind_of(span: Span, nodes: Seq<Span>) -> bool {
    exists|k: int|
        0 <= k < nodes.len() && (#[trigger] nodes[k]).kind == span.kind && nodes[k].start
            <= span.start && span.end <= nodes[k].end
}

/// Whether spans have the kinds of nodes that they lie in and, where the nodes tell
/// their lines, tell theirs.
spec fn tell(spans: Seq<Span>, nodes: Seq<Span>, bytes: Seq<u8>) -> bool {
    forall|i: int|
        0 <= i < spans.len() ==> has_kind_of(#[trigger] spans[i], nodes) && (all_tell(nodes, bytes)
            ==> tells_lines(spans[i], bytes))
}

/// Whether all nodes tell their lines.
pub open spec fn all_tell(nodes: Seq<Span>, bytes: Seq<u8>) -> bool {
    forall|i: int| 0 <= i < nodes.len() ==> tells_lines(#[trigger] nodes[i], bytes)
}

/// Spans that are merged inside a node tell what they did.
proof fn lemma_merged_tell(
    active: Span,
    rest: Seq<Span>,
    max: int,
    nodes: Seq<Span>,
    bytes: Seq<u8>,
    index: int,
)
    requires
        0 <= index < nodes.len(),
        lined_up(seq![active] + rest, nodes[index].start, nodes[index].end),
        tell(seq![active] + rest, nodes, bytes),
    ensures
        tell(merged_from(active, rest, max, nodes[index].kind), nodes, bytes),
    decreases rest.len(),
{
    let kind = nodes[index].kind;
    let list = seq![active] + rest;
    let out = merged_from(active, rest, max, kind);
    assert(list[0] == active);
    if rest.len() > 0 {
        let behind = rest.drop_first();
        let first = rest[0];
        assert(list[1] == first);
        let joins = fits(tokens(distance(active.start, first.end)), max);
        let next = if joins {
            combined(active, first, kind)
        } else {
            first
        };
        let short = seq![next] + behind;
        assert(short[0] == next);
        assert forall|i: int| 1 <= i < short.len() implies #[trigger] short[i] == list[i + 1] by {
            assert(short[i] == behind[i - 1]);
            assert(list[i + 1] == rest[i]);
        }
        assert(nodes[index].start <= list[0].start <= list[0].end <= list[1].start <= list[1].end
            <= nodes[index].end);
        assert(has_kind_of(list[0], nodes) && has_kind_of(list[1], nodes));
        assert(has_kind_of(next, nodes)) by {
            if joins && !(active.start == first.start && active.end == first.end) {
                assert(nodes[index].kind == next.kind);
            } else if joins {
                let k = choose|k: int|
                    0 <= k < nodes.len() && (#[trigger] nodes[k]).kind == active.kind
                        && nodes[k].start <= active.start && active.end <= nodes[k].end;
                assert(nodes[k].kind == next.kind && nodes[k].start <= next.start && next.end
                    <= nodes[k].end);
            }
        }
        assert(lined_up(short, nodes[index].start, nodes[index].end)) by {
            assert forall|i: int| 0 <= i < short.len() implies nodes[index].start <= (
            #[trigger] short[i]).start <= short[i].end <= nodes[index].end by {
                if i > 0 {
                    assert(list[i + 1].start <= list[i + 1].end);
                }
            }
            assert forall|i: int, j: int|
                0 <= i < j < short.len() implies (#[trigger] short[i]).end <= (
            #[trigger] short[j]).start by {
                assert(short[j] == list[j + 1]);
                if i > 0 {
                    assert(short[i] == list[i + 1]);
                    assert(list[i + 1].end <= list[j + 1].start);
                } else {
                    assert(list[1].end <= list[j + 1].start);
                }
            }
        }
        assert(tell(short, nodes, bytes)) by {
            assert forall|i: int| 0 <= i < short.len() implies has_kind_of(
                #[trigger] short[i],
                nodes,
            ) && (all_tell(nodes, bytes) ==> tells_lines(short[i], bytes)) by {
                if i > 0 {
                    assert(has_kind_of(list[i + 1], nodes));
                } else {
                    assert(all_tell(nodes, bytes) ==> tells_lines(list[0], bytes) && tells_lines(
                        list[1],
                        bytes,
                    ));
                }
            }
        }
        lemma_merged_tell(next, behind, max, nodes, bytes, index);
        let tail = merged_from(next, behind, max, kind);
        if joins {
            assert(out == tail);
        } else {
            assert(out =~= seq![active] + tail);
            assert forall|i: int| 0 <= i < out.len() implies has_kind_of(#[trigger] out[i], nodes)
                && (all_tell(nodes, bytes) ==> tells_lines(out[i], bytes)) by {
                if i > 0 {
                    assert(out[i] == tail[i - 1]);
                } else {
                    assert(out[0] == list[0]);
                }
            }
        }
    } else {
        assert forall|i: int| 0 <= i < out.len() implies has_kind_of(#[trigger] out[i], nodes) && (
        all_tell(nodes, bytes) ==> tells_lines(out[i], bytes)) by {
            assert(out[i] == list[0]);
        }
    }
}

/// The spans of a node line up inside it, and tell their kinds and lines.
proof fn lemma_node_spans(nodes: Seq<Span>, bytes: Seq<u8>, index: int, max: int)
    requires
        valid_utf8(bytes),
        well_placed(nodes, bytes),
        0 <= max,
        0 <= index < nodes.len(),
    ensures
        node_spans(nodes, bytes, index, max) is Some,
        lined_up(node_spans(nodes, bytes, index, max)->0, nodes[index].start, nodes[index].end),
        tell(node_spans(nodes, bytes, index, max)->0, nodes, bytes),
    decreases nodes.len() - index, children_of(nodes, index, nodes.len() as int).len() + 1,
{
    let node = nodes[index];
    let children = children_of(nodes, index, nodes.len() as int);
    let spans = node_spans(nodes, bytes, index, max)->0;
    assert(has_kind_of(node, nodes));
    if fits(tokens(distance(node.start, node.end)), max) {
        assert(spans =~= seq![node]);
    } else if children.len() == 0 {
        lemma_leaf_spans(nodes, bytes, index, max);
    } else {
        lemma_child_spans(nodes, bytes, index, children.len() as int, max);
        let found = child_spans(nodes, bytes, index, children.len() as int, max)->0;
        lemma_lined_up_in_order(found, node.start, node.end);
        law_merged_holds(found, max, node.kind, node.start, node.end);
        if found.len() > 0 {
            assert(seq![found[0]] + found.drop_first() =~= found);
            lemma_merged_tell(found[0], found.drop_first(), max, nodes, bytes, index);
        }
    }
}

/// The spans of a node that is cut by lines.
proof fn lemma_leaf_spans(nodes: Seq<Span>, bytes: Seq<u8>, index: int, max: int)
    requires
        valid_utf8(bytes),
        well_placed(nodes, bytes),
        0 <= max,
        0 <= index < nodes.len(),
        children_of(nodes, index, nodes.len() as int).len() == 0,
        !fits(tokens(distance(nodes[index].start, nodes[index].end)), max),
    ensures
        node_spans(nodes, bytes, index, max) is Some,
        adjoining(node_spans(nodes, bytes, index, max)->0, nodes[index].start, nodes[index].end),
        lined_up(node_spans(nodes, bytes, index, max)->0, nodes[index].start, nodes[index].end),
        tell(node_spans(nodes, bytes, index, max)->0, nodes, bytes),
{
    let node = nodes[index];
    let spans = node_spans(nodes, bytes, index, max)->0;
    assert(range_ok(bytes, node.start, node.end));
    law_fallback_covers(bytes, node.start, node.end, node.first_line, max, node.kind);
    lemma_adjoining(spans, node.start, node.end);
    if all_tell(nodes, bytes) {
        assert(tells_lines(nodes[index], bytes));
        law_fallback_tells_lines(bytes, node.start, node.end, node.first_line, max, node.kind);
    }
    law_fallback_kind(bytes, node.start, node.end, node.first_line, max, node.kind);
    lemma_adjoining_filled(spans, node.start, node.end);
    assert forall|i: int| 0 <= i < spans.len() implies has_kind_of(#[trigger] spans[i], nodes) && (
    all_tell(nodes, bytes) ==> tells_lines(spans[i], bytes)) by {
        assert(nodes[index].kind == spans[i].kind);
    }
}

/// Spans that stand one behind the other are not empty.
proof fn lemma_adjoining_filled(spans: Seq<Span>, from: int, to: int)
    requires
        adjoining(spans, from, to),
    ensures
        forall|i: int| 0 <= i < spans.len() ==> (#[trigger] spans[i]).start < spans[i].end,
    decreases spans.len(),
{
    if spans.len() > 0 {
        let rest = spans.drop_first();
        lemma_adjoining_filled(rest, spans[0].end, to);
        assert forall|i: int| 0 <= i < spans.len() implies (#[trigger] spans[i]).start
            < spans[i].end by {
            if i > 0 {
                assert(spans[i] == rest[i - 1]);
            }
        }
    }
}

/// A part of a text that is cut by lines gives spans of the kind that was given.
pub proof fn law_fallback_kind(
    bytes: Seq<u8>,
    start: int,
    end: int,
    line: int,
    max: int,
    kind: Seq<char>,
)
    ensures
        forall|i: int|
            0 <= i < fallback_spans(bytes, start, end, line, max, kind).len() ==> (
            #[trigger] fallback_spans(bytes, start, end, line, max, kind)[i]).kind == kind,
{
    lemma_packed_kind(
        bytes,
        start,
        start,
        crate::lines::lesser(end, bytes.len() as int),
        line,
        max,
        kind,
    );
}

/// Runs have the kind that was given.
proof fn lemma_packed_kind(
    bytes: Seq<u8>,
    start: int,
    at: int,
    end: int,
    line: int,
    max: int,
    kind: Seq<char>,
)
    ensures
        forall|i: int|
            0 <= i < crate::spans::packed(bytes, start, at, end, line, max, kind).len() ==> (
            #[trigger] crate::spans::packed(bytes, start, at, end, line, max, kind)[i]).kind
                == kind,
    decreases end - at,
{
    let to = crate::spans::run_end(bytes, at, end, 0, max);
    if at < to <= end {
        lemma_packed_kind(bytes, start, to, end, line, max, kind);
        let all = crate::spans::packed(bytes, start, at, end, line, max, kind);
        let behind = crate::spans::packed(bytes, start, to, end, line, max, kind);
        assert forall|i: int| 0 <= i < all.len() implies (#[trigger] all[i]).kind == kind by {
            if i > 0 {
                assert(all[i] == behind[i - 1]);
            }
        }
    }
}

/// The spans of the first children of a node line up inside it, and tell their
/// kinds and lines.
proof fn lemma_child_spans(nodes: Seq<Span>, bytes: Seq<u8>, index: int, count: int, max: int)
    requires
        valid_utf8(bytes),
        well_placed(nodes, bytes),
        0 <= max,
        0 <= index < nodes.len(),
        0 <= count <= children_of(nodes, index, nodes.len() as int).len(),
    ensures
        child_spans(nodes, bytes, index, count, max) is Some,
        lined_up(
            child_spans(nodes, bytes, index, count, max)->0,
            nodes[index].start,
            nodes[index].end,
        ),
        count > 0 ==> lined_up(
            child_spans(nodes, bytes, index, count, max)->0,
            nodes[index].start,
            nodes[children_of(nodes, index, nodes.len() as int)[count - 1]].end,
        ),
        tell(child_spans(nodes, bytes, index, count, max)->0, nodes, bytes),
        forall|c: int|
            0 <= c < count ==> #[trigger] all_among(
                node_spans(
                    nodes,
                    bytes,
                    children_of(nodes, index, nodes.len() as int)[c],
                    max,
                )->0,
                child_spans(nodes, bytes, index, count, max)->0,
            ),
    decreases nodes.len() - index, count,
{
    let children = children_of(nodes, index, nodes.len() as int);
    let all = child_spans(nodes, bytes, index, count, max)->0;
    if count > 0 {
        let child = children[count - 1];
        lemma_children_known(nodes, index, nodes.len() as int);
        law_parent(nodes, child);
        assert(nodes[index].start <= nodes[child].start);
        lemma_child_spans(nodes, bytes, index, count - 1, max);
        lemma_node_spans(nodes, bytes, child, max);
        let before = child_spans(nodes, bytes, index, count - 1, max)->0;
        let own = node_spans(nodes, bytes, child, max)->0;
        assert(all =~= before + own);
        if count > 1 {
            let last = children[count - 2];
            assert(last < child);
            law_siblings_apart(nodes, index, last, child);
        }
        assert(lined_up(all, nodes[index].start, nodes[child].end)) by {
            assert forall|i: int| 0 <= i < all.len() implies nodes[index].start <= (
            #[trigger] all[i]).start <= all[i].end <= nodes[child].end by {
                if i < before.len() {
                    assert(all[i] == before[i]);
                } else {
                    assert(all[i] == own[i - before.len()]);
                }
            }
            assert forall|i: int, j: int| 0 <= i < j < all.len() implies (#[trigger] all[i]).end
                <= (#[trigger] all[j]).start by {
                if j < before.len() {
                    assert(all[i] == before[i] && all[j] == before[j]);
                } else {
                    assert(all[j] == own[j - before.len()]);
                    if i < before.len() {
                        assert(all[i] == before[i]);
                    } else {
                        assert(all[i] == own[i - before.len()]);
                    }
                }
            }
        }
        assert forall|i: int| 0 <= i < all.len() implies has_kind_of(#[trigger] all[i], nodes) && (
        all_tell(nodes, bytes) ==> tells_lines(all[i], bytes)) by {
            if i < before.len() {
                assert(all[i] == before[i]);
            } else {
                assert(all[i] == own[i - before.len()]);
            }
        }
        assert forall|c: int| 0 <= c < count implies #[trigger] all_among(
            node_spans(nodes, bytes, children[c], max)->0,
            all,
        ) by {
            let spans = node_spans(nodes, bytes, children[c], max)->0;
            assert forall|i: int| 0 <= i < spans.len() implies all.contains(#[trigger] spans[i]) by {
                if c < count - 1 {
                    assert(all_among(spans, before));
                    assert(before.contains(spans[i]));
                    let k = choose|k: int| 0 <= k < before.len() && before[k] == spans[i];
                    assert(all[k] == spans[i]);
                } else {
                    assert(all[before.len() + i] == own[i]);
                }
            }
        }
    }
}

/// Whether each of some spans is one of others.
spec fn all_among(spans: Seq<Span>, others: Seq<Span>) -> bool {
    forall|i: int| 0 <= i < spans.len() ==> others.contains(#[trigger] spans[i])
}

// ---------------------------------------------------------------------------
// What the spans of a text hold
// ---------------------------------------------------------------------------

/// The spans of a node lie in spans of the node that it lies in.
proof fn lemma_parent_holds(nodes: Seq<Span>, bytes: Seq<u8>, index: int, max: int)
    requires
        valid_utf8(bytes),
        well_placed(nodes, bytes),
        0 <= max,
        0 <= index < nodes.len(),
        parent_of(nodes, index) is Some,
    ensures
        all_held(
            node_spans(nodes, bytes, index, max)->0,
            node_spans(nodes, bytes, parent_of(nodes, index)->0, max)->0,
        ),
{
    let parent = parent_of(nodes, index)->0;
    let own = node_spans(nodes, bytes, index, max)->0;
    let out = node_spans(nodes, bytes, parent, max)->0;
    law_parent(nodes, index);
    lemma_node_spans(nodes, bytes, index, max);
    assert(nodes[parent].start <= nodes[index].start);
    let children = children_of(nodes, parent, nodes.len() as int);
    lemma_children_known(nodes, parent, nodes.len() as int);
    assert(children.contains(index));
    if fits(tokens(distance(nodes[parent].start, nodes[parent].end)), max) {
        assert(out[0] == nodes[parent]);
        assert forall|i: int| 0 <= i < own.len() implies held(
            (#[trigger] own[i]).start,
            own[i].end,
            out,
        ) by {
            assert(out[0].start <= own[i].start && own[i].end <= out[0].end);
        }
    } else {
        let c = choose|c: int| 0 <= c < children.len() && children[c] == index;
        lemma_child_spans(nodes, bytes, parent, children.len() as int, max);
        let found = child_spans(nodes, bytes, parent, children.len() as int, max)->0;
        lemma_lined_up_in_order(found, nodes[parent].start, nodes[parent].end);
        law_merged_holds(found, max, nodes[parent].kind, nodes[parent].start, nodes[parent].end);
        assert(all_among(node_spans(nodes, bytes, children[c], max)->0, found));
        assert forall|i: int| 0 <= i < own.len() implies held(
            (#[trigger] own[i]).start,
            own[i].end,
            out,
        ) by {
            assert(found.contains(own[i]));
            let k = choose|k: int| 0 <= k < found.len() && found[k] == own[i];
            assert(held(found[k].start, found[k].end, out));
        }
    }
}

/// The spans of the nodes that lie in no other are there, and tell their kinds and
/// lines.
proof fn lemma_root_spans(nodes: Seq<Span>, bytes: Seq<u8>, before: int, max: int)
    requires
        valid_utf8(bytes),
        well_placed(nodes, bytes),
        0 <= max,
        0 <= before <= nodes.len(),
    ensures
        root_spans(nodes, bytes, before, max) is Some,
        tell(root_spans(nodes, bytes, before, max)->0, nodes, bytes),
        forall|i: int|
            0 <= i < (root_spans(nodes, bytes, before, max)->0).len() ==> 0 <= (
            #[trigger] root_spans(nodes, bytes, before, max)->0[i]).start <= root_spans(
                nodes,
                bytes,
                before,
                max,
            )->0[i].end <= bytes.len(),
        forall|k: int|
            0 <= k < before && #[trigger] parent_of(nodes, k) is None ==> all_among(
                node_spans(nodes, bytes, k, max)->0,
                root_spans(nodes, bytes, before, max)->0,
            ),
    decreases before,
{
    if before > 0 {
        lemma_root_spans(nodes, bytes, before - 1, max);
        lemma_node_spans(nodes, bytes, before - 1, max);
        let init = root_spans(nodes, bytes, before - 1, max)->0;
        let own = node_spans(nodes, bytes, before - 1, max)->0;
        let all = root_spans(nodes, bytes, before, max)->0;
        if parent_of(nodes, before - 1) is None {
            assert(all =~= init + own);
        }
        assert forall|i: int| 0 <= i < all.len() implies has_kind_of(#[trigger] all[i], nodes) && (
        all_tell(nodes, bytes) ==> tells_lines(all[i], bytes)) by {
            if i < init.len() {
                assert(all[i] == init[i]);
            } else {
                assert(all[i] == own[i - init.len()]);
            }
        }
        assert forall|i: int| 0 <= i < all.len() implies 0 <= (#[trigger] all[i]).start
            <= all[i].end <= bytes.len() by {
            if i < init.len() {
                assert(all[i] == init[i]);
            } else {
                assert(all[i] == own[i - init.len()]);
                assert(nodes[before - 1].end <= bytes.len());
            }
        }
        assert forall|k: int|
            0 <= k < before && #[trigger] parent_of(nodes, k) is None implies all_among(
            node_spans(nodes, bytes, k, max)->0,
            all,
        ) by {
            let spans = node_spans(nodes, bytes, k, max)->0;
            assert forall|i: int| 0 <= i < spans.len() implies all.contains(#[trigger] spans[i]) by {
                if k < before - 1 {
                    assert(init.contains(spans[i]));
                    let m = choose|m: int| 0 <= m < init.len() && init[m] == spans[i];
                    assert(all[m] == spans[i]);
                } else {
                    assert(all[init.len() + i] == own[i]);
                }
            }
        }
    }
}

/// What a node has as spans is held by the spans of the text.
pub proof fn law_node_is_held(nodes: Seq<Span>, bytes: Seq<u8>, index: int, max: int)
    requires
        valid_utf8(bytes),
        well_placed(nodes, bytes),
        0 <= max,
        0 <= index < nodes.len(),
    ensures
        structural_spans(nodes, bytes, max) is Some,
        node_spans(nodes, bytes, index, max) is Some,
        all_held(
            node_spans(nodes, bytes, index, max)->0,
            structural_spans(nodes, bytes, max)->0,
        ),
    decreases index,
{
    let own = node_spans(nodes, bytes, index, max)->0;
    lemma_node_spans(nodes, bytes, index, max);
    lemma_root_spans(nodes, bytes, nodes.len() as int, max);
    let out = structural_spans(nodes, bytes, max)->0;
    match parent_of(nodes, index) {
        Some(parent) => {
            law_parent(nodes, index);
            lemma_parent_holds(nodes, bytes, index, max);
            law_node_is_held(nodes, bytes, parent, max);
            let above = node_spans(nodes, bytes, parent, max)->0;
            assert forall|i: int| 0 <= i < own.len() implies held(
                (#[trigger] own[i]).start,
                own[i].end,
                out,
            ) by {
                assert(held(own[i].start, own[i].end, above));
                let k = choose|k: int|
                    0 <= k < above.len() && (#[trigger] above[k]).start <= own[i].start
                        && own[i].end <= above[k].end;
                assert(held(above[k].start, above[k].end, out));
                let m = choose|m: int|
                    0 <= m < out.len() && (#[trigger] out[m]).start <= above[k].start
                        && above[k].end <= out[m].end;
                assert(out[m].start <= own[i].start && own[i].end <= out[m].end);
            }
        },
        None => {
            let roots = root_spans(nodes, bytes, nodes.len() as int, max)->0;
            assert(all_among(own, roots));
            lemma_pruned_holds(roots, bytes);
            assert forall|i: int| 0 <= i < own.len() implies held(
                (#[trigger] own[i]).start,
                own[i].end,
                out,
            ) by {
                assert(roots.contains(own[i]));
                let k = choose|k: int| 0 <= k < roots.len() && roots[k] == own[i];
                assert(held(roots[k].start, roots[k].end, out));
            }
        },
    }
}

/// Spans are held by those that are left once the inner ones are gone, which are
/// some of them.
proof fn lemma_pruned_holds(spans: Seq<Span>, bytes: Seq<u8>)
    requires
        forall|i: int|
            0 <= i < spans.len() ==> 0 <= (#[trigger] spans[i]).start <= spans[i].end
                <= bytes.len(),
    ensures
        all_held(spans, pruned(by_start(spans))),
        all_among(pruned(by_start(spans)), spans),
{
    let rank = ranking::<ChunkSpan>(false);
    let sorted = by_start(spans);
    let out = pruned(sorted);
    assert forall|i: int| 0 <= i < sorted.len() implies (#[trigger] sorted[i]).start
        <= sorted[i].end by {
        lemma_in_order_contains(spans, rank, sorted[i]);
        assert(sorted.contains(sorted[i]));
    }
    law_pruned(sorted);
    assert forall|i: int| 0 <= i < spans.len() implies held(
        (#[trigger] spans[i]).start,
        spans[i].end,
        out,
    ) by {
        lemma_in_order_contains(spans, rank, spans[i]);
        assert(spans.contains(spans[i]));
        let k = choose|k: int| 0 <= k < sorted.len() && sorted[k] == spans[i];
        assert(inside_any(sorted[k], out));
        let m = choose|m: int| 0 <= m < out.len() && inside(spans[i], #[trigger] out[m]);
        assert(out[m].start <= spans[i].start && spans[i].end <= out[m].end);
    }
    assert forall|i: int| 0 <= i < out.len() implies spans.contains(#[trigger] out[i]) by {
        assert(sorted.contains(out[i]));
        lemma_in_order_contains(spans, rank, out[i]);
    }
}

/// A node that holds no other is cut without a gap: its spans stand one behind the
/// other from its start to its end.
pub proof fn law_leaf_is_cut_whole(nodes: Seq<Span>, bytes: Seq<u8>, index: int, max: int)
    requires
        valid_utf8(bytes),
        well_placed(nodes, bytes),
        0 <= max,
        0 <= index < nodes.len(),
        nodes[index].start < nodes[index].end,
        forall|j: int| 0 <= j < nodes.len() ==> #[trigger] parent_of(nodes, j) != Some(index),
    ensures
        node_spans(nodes, bytes, index, max) is Some,
        adjoining(node_spans(nodes, bytes, index, max)->0, nodes[index].start, nodes[index].end),
{
    let node = nodes[index];
    let children = children_of(nodes, index, nodes.len() as int);
    lemma_children_known(nodes, index, nodes.len() as int);
    assert(children.len() == 0) by {
        if children.len() > 0 {
            assert(parent_of(nodes, children[0]) == Some(index));
        }
    }
    if fits(tokens(distance(node.start, node.end)), max) {
        let spans = node_spans(nodes, bytes, index, max)->0;
        assert(spans =~= seq![node]);
        assert(spans.drop_first() =~= Seq::<Span>::empty());
        assert(adjoining(Seq::<Span>::empty(), node.end, node.end));
    } else {
        lemma_leaf_spans(nodes, bytes, index, max);
    }
}

/// Each byte of a node that holds no other is in one of the spans of the text.
pub proof fn law_leaf_is_held(nodes: Seq<Span>, bytes: Seq<u8>, index: int, max: int, at: int)
    requires
        valid_utf8(bytes),
        well_placed(nodes, bytes),
        0 <= max,
        0 <= index < nodes.len(),
        forall|j: int| 0 <= j < nodes.len() ==> #[trigger] parent_of(nodes, j) != Some(index),
        nodes[index].start <= at < nodes[index].end,
    ensures
        structural_spans(nodes, bytes, max) is Some,
        exists|k: int|
            0 <= k < (structural_spans(nodes, bytes, max)->0).len() && (
            #[trigger] structural_spans(nodes, bytes, max)->0[k]).start <= at < structural_spans(
                nodes,
                bytes,
                max,
            )->0[k].end,
{
    let own = node_spans(nodes, bytes, index, max)->0;
    let out = structural_spans(nodes, bytes, max)->0;
    law_leaf_is_cut_whole(nodes, bytes, index, max);
    lemma_adjoining(own, nodes[index].start, nodes[index].end);
    law_node_is_held(nodes, bytes, index, max);
    assert(held(at, at + 1, own));
    let i = choose|i: int|
        0 <= i < own.len() && (#[trigger] own[i]).start <= at && at + 1 <= own[i].end;
    assert(held(own[i].start, own[i].end, out));
    let k = choose|k: int|
        0 <= k < out.len() && (#[trigger] out[k]).start <= own[i].start && own[i].end
            <= out[k].end;
    assert(out[k].start <= at < out[k].end);
}

/// A node within the limit is not taken apart: one span of the text holds all of
/// it.
pub proof fn law_small_node_stays_whole(nodes: Seq<Span>, bytes: Seq<u8>, index: int, max: int)
    requires
        valid_utf8(bytes),
        well_placed(nodes, bytes),
        0 <= max,
        0 <= index < nodes.len(),
        max == 0 || nodes[index].end - nodes[index].start <= 4 * max,
    ensures
        structural_spans(nodes, bytes, max) is Some,
        held(nodes[index].start, nodes[index].end, structural_spans(nodes, bytes, max)->0),
{
    let node = nodes[index];
    law_limit(node.start, node.end, max);
    law_node_is_held(nodes, bytes, index, max);
    let own = node_spans(nodes, bytes, index, max)->0;
    assert(own[0] == node);
}

/// The spans of a node that is taken apart into its children are merged as far as the
/// limit allows: no two of them would fit together. Those of a child that are not
/// merged keep their kind; the others have the kind of the node.
pub proof fn law_children_are_merged(nodes: Seq<Span>, bytes: Seq<u8>, index: int, max: int)
    requires
        valid_utf8(bytes),
        well_placed(nodes, bytes),
        0 < max,
        0 <= index < nodes.len(),
        nodes[index].end - nodes[index].start > 4 * max,
        exists|j: int| 0 <= j < nodes.len() && #[trigger] parent_of(nodes, j) == Some(index),
    ensures
        node_spans(nodes, bytes, index, max) is Some,
        ({
            let spans = node_spans(nodes, bytes, index, max)->0;
            &&& lined_up(spans, nodes[index].start, nodes[index].end)
            &&& forall|i: int, j: int|
                0 <= i < j < spans.len() ==> (#[trigger] spans[j]).end - (#[trigger] spans[i]).start
                    > 4 * max
        }),
{
    let node = nodes[index];
    let children = children_of(nodes, index, nodes.len() as int);
    law_limit(node.start, node.end, max);
    lemma_children_known(nodes, index, nodes.len() as int);
    let j = choose|j: int| 0 <= j < nodes.len() && #[trigger] parent_of(nodes, j) == Some(index);
    assert(children.contains(j));
    lemma_node_spans(nodes, bytes, index, max);
    lemma_child_spans(nodes, bytes, index, children.len() as int, max);
    let found = child_spans(nodes, bytes, index, children.len() as int, max)->0;
    lemma_lined_up_in_order(found, node.start, node.end);
    law_merged_holds(found, max, node.kind, node.start, node.end);
}

/// The spans of a text stand in the order of their starts, and none lies in another.
pub proof fn law_spans_lie_apart(nodes: Seq<Span>, bytes: Seq<u8>, max: int)
    requires
        valid_utf8(bytes),
        well_placed(nodes, bytes),
        0 <= max,
    ensures
        structural_spans(nodes, bytes, max) is Some,
        ({
            let spans = structural_spans(nodes, bytes, max)->0;
            &&& forall|i: int, j: int|
                0 <= i < j < spans.len() ==> (#[trigger] spans[i]).start <= (
                #[trigger] spans[j]).start
            &&& forall|i: int, j: int|
                0 <= i < spans.len() && 0 <= j < spans.len() && i != j ==> !((
                #[trigger] spans[j]).start <= (#[trigger] spans[i]).start && spans[i].end
                    <= spans[j].end)
        }),
{
    lemma_root_spans(nodes, bytes, nodes.len() as int, max);
    let roots = root_spans(nodes, bytes, nodes.len() as int, max)->0;
    let rank = ranking::<ChunkSpan>(false);
    let sorted = by_start(roots);
    let spans = structural_spans(nodes, bytes, max)->0;
    assert forall|i: int| 0 <= i < sorted.len() implies (#[trigger] sorted[i]).start
        <= sorted[i].end by {
        lemma_in_order_contains(roots, rank, sorted[i]);
        assert(sorted.contains(sorted[i]));
        let k = choose|k: int| 0 <= k < roots.len() && roots[k] == sorted[i];
        assert(roots[k].start <= roots[k].end);
    }
    law_pruned(sorted);
    assert(spans == pruned(sorted));
    assert forall|i: int, j: int| 0 <= i < j < spans.len() implies (#[trigger] spans[i]).start <= (
    #[trigger] spans[j]).start by {
        assert(rank_le(rank(spans[i]), rank(spans[j])));
    }
    assert forall|i: int, j: int|
        0 <= i < spans.len() && 0 <= j < spans.len() && i != j implies !((
    #[trigger] spans[j]).start <= (#[trigger] spans[i]).start && spans[i].end <= spans[j].end) by {
        assert(!inside(spans[i], spans[j]));
    }
}

/// Each span of a text lies in a node of its kind and, where the nodes tell the
/// lines on which they stand, tells its own.
pub proof fn law_spans_lie_in_nodes(nodes: Seq<Span>, bytes: Seq<u8>, max: int)
    requires
        valid_utf8(bytes),
        well_placed(nodes, bytes),
        0 <= max,
    ensures
        structural_spans(nodes, bytes, max) is Some,
        forall|i: int|
            0 <= i < (structural_spans(nodes, bytes, max)->0).len() ==> {
                let span = #[trigger] structural_spans(nodes, bytes, max)->0[i];
                &&& has_kind_of(span, nodes)
                &&& all_tell(nodes, bytes) ==> tells_lines(span, bytes)
            },
{
    lemma_root_spans(nodes, bytes, nodes.len() as int, max);
    let roots = root_spans(nodes, bytes, nodes.len() as int, max)->0;
    let out = structural_spans(nodes, bytes, max)->0;
    lemma_pruned_holds(roots, bytes);
    assert forall|i: int| 0 <= i < out.len() implies has_kind_of(#[trigger] out[i], nodes) && (
    all_tell(nodes, bytes) ==> tells_lines(out[i], bytes)) by {
        assert(roots.contains(out[i]));
        let k = choose|k: int| 0 <= k < roots.len() && roots[k] == out[i];
        assert(has_kind_of(roots[k], nodes));
    }
}

/// Where spans reach back, they still hold what they held.
pub proof fn law_plan_holds_spans(nodes: Seq<Span>, bytes: Seq<u8>, max: int, overlap: int)
    requires
        valid_utf8(bytes),
        well_placed(nodes, bytes),
        0 <= max,
        0 <= overlap,
    ensures
        structural_plan(nodes, bytes, max, overlap) is Some,
        structural_spans(nodes, bytes, max) is Some,
        all_held(
            structural_spans(nodes, bytes, max)->0,
            structural_plan(nodes, bytes, max, overlap)->0,
        ),
{
    lemma_root_spans(nodes, bytes, nodes.len() as int, max);
    let roots = root_spans(nodes, bytes, nodes.len() as int, max)->0;
    let spans = structural_spans(nodes, bytes, max)->0;
    let out = structural_plan(nodes, bytes, max, overlap)->0;
    lemma_pruned_holds(roots, bytes);
    assert forall|i: int| 0 <= i < spans.len() implies 0 <= (#[trigger] spans[i]).start by {
        assert(roots.contains(spans[i]));
        let k = choose|k: int| 0 <= k < roots.len() && roots[k] == spans[i];
        assert(0 <= roots[k].start);
    }
    law_overlap(spans, bytes, overlap, max);
    assert forall|i: int| 0 <= i < spans.len() implies held(
        (#[trigger] spans[i]).start,
        spans[i].end,
        out,
    ) by {
        assert(out[i].start <= spans[i].start && spans[i].end <= out[i].end);
    }
}

// ---------------------------------------------------------------------------
// What is captured
// ---------------------------------------------------------------------------

/// Whether a node stands for a capture: it is structural and lies on the same bytes.
pub open spec fn stands_for(node: Span, capture: CaptureView) -> bool {
    &&& capture.name == "structural"@
    &&& node.start == capture.start
    &&& node.end == capture.end
}

/// The structural nodes of a text: each structural capture has one on its bytes, no
/// two lie on the same bytes, and each has its kind and lines from the first capture
/// on its bytes. They stand in the order of their starts and then of their ends.
pub proof fn law_captures_become_nodes(captures: Seq<CaptureView>)
    ensures
        ({
            let nodes = node_order(captures);
            &&& forall|i: int|
                0 <= i < captures.len() && (#[trigger] captures[i]).name == "structural"@
                    ==> exists|k: int|
                    0 <= k < nodes.len() && stands_for(#[trigger] nodes[k], captures[i])
            &&& forall|k: int| 0 <= k < nodes.len() ==> captured_first(#[trigger] nodes[k], captures)
            &&& forall|k: int, m: int|
                0 <= k < m < nodes.len() ==> {
                    ||| (#[trigger] nodes[k]).start < (#[trigger] nodes[m]).start
                    ||| nodes[k].start == nodes[m].start && nodes[k].end < nodes[m].end
                }
        }),
{
    let found = distinct_spans(captures);
    let nodes = node_order(captures);
    let rank = ranking::<NodeSpan>(false);
    lemma_distinct(captures);
    lemma_sorted_apart(found);
    assert forall|i: int|
        0 <= i < captures.len() && (#[trigger] captures[i]).name == "structural"@ implies exists|
        k: int,
    |
        0 <= k < nodes.len() && stands_for(#[trigger] nodes[k], captures[i]) by {
        let k = choose|k: int| 0 <= k < found.len() && stands_for(#[trigger] found[k], captures[i]);
        lemma_in_order_contains(found, rank, found[k]);
        assert(found.contains(found[k]));
        let m = choose|m: int| 0 <= m < nodes.len() && nodes[m] == found[k];
        assert(stands_for(nodes[m], captures[i]));
    }
    assert forall|k: int| 0 <= k < nodes.len() implies captured_first(
        #[trigger] nodes[k],
        captures,
    ) by {
        lemma_in_order_contains(found, rank, nodes[k]);
        assert(nodes.contains(nodes[k]));
        let m = choose|m: int| 0 <= m < found.len() && found[m] == nodes[k];
        assert(captured_first(found[m], captures));
    }
}

/// Nodes on different bytes stand in the order of their starts and then of their
/// ends once they are sorted.
proof fn lemma_sorted_apart(found: Seq<Span>)
    requires
        forall|k: int, m: int|
            0 <= k < m < found.len() ==> (#[trigger] found[k]).start != (#[trigger] found[m]).start
                || found[k].end != found[m].end,
    ensures
        ({
            let nodes = in_order(found, ranking::<NodeSpan>(false));
            forall|k: int, m: int|
                0 <= k < m < nodes.len() ==> {
                    ||| (#[trigger] nodes[k]).start < (#[trigger] nodes[m]).start
                    ||| nodes[k].start == nodes[m].start && nodes[k].end < nodes[m].end
                }
        }),
{
    broadcast use vstd::seq_lib::group_to_multiset_ensures;

    let rank = ranking::<NodeSpan>(false);
    let nodes = in_order(found, rank);
    lemma_in_order(found, rank);
    assert(found.no_duplicates()) by {
        assert forall|a: int, b: int| 0 <= a < found.len() && 0 <= b < found.len() && a
            != b implies found[a] != found[b] by {
            if a < b {
                assert(found[a].start != found[b].start || found[a].end != found[b].end);
            } else {
                assert(found[b].start != found[a].start || found[b].end != found[a].end);
            }
        }
    }
    found.lemma_multiset_has_no_duplicates();
    nodes.lemma_multiset_has_no_duplicates_conv();
    assert forall|k: int, m: int| 0 <= k < m < nodes.len() implies (#[trigger] nodes[k]).start < (
    #[trigger] nodes[m]).start || (nodes[k].start == nodes[m].start && nodes[k].end
        < nodes[m].end) by {
        assert(rank_le(rank(nodes[k]), rank(nodes[m])));
        assert(nodes[k] != nodes[m]);
        lemma_in_order_contains(found, rank, nodes[k]);
        lemma_in_order_contains(found, rank, nodes[m]);
        assert(nodes.contains(nodes[k]) && nodes.contains(nodes[m]));
        let a = choose|a: int| 0 <= a < found.len() && found[a] == nodes[k];
        let b = choose|b: int| 0 <= b < found.len() && found[b] == nodes[m];
        if a < b {
            assert(found[a].start != found[b].start || found[a].end != found[b].end);
        } else {
            assert(found[b].start != found[a].start || found[b].end != found[a].end);
        }
    }
}

/// Whether the capture at a position is the first that a node stands for; it has
/// its kind from it, and its lines, counted from one.
pub open spec fn first_for(node: Span, captures: Seq<CaptureView>, at: int) -> bool {
    &&& 0 <= at < captures.len()
    &&& stands_for(node, captures[at])
    &&& node.kind == captures[at].kind
    &&& node.first_line == capped(captures[at].start_row + 1)
    &&& node.last_line == capped(captures[at].end_row + 1)
    &&& forall|k: int| 0 <= k < at ==> !stands_for(node, #[trigger] captures[k])
}

/// Whether a node stands for a capture.
pub open spec fn captured_first(node: Span, captures: Seq<CaptureView>) -> bool {
    exists|at: int| #[trigger] first_for(node, captures, at)
}

/// The spans of captures.
proof fn lemma_distinct(captures: Seq<CaptureView>)
    ensures
        ({
            let found = distinct_spans(captures);
            &&& forall|i: int|
                0 <= i < captures.len() && (#[trigger] captures[i]).name == "structural"@
                    ==> exists|k: int|
                    0 <= k < found.len() && stands_for(#[trigger] found[k], captures[i])
            &&& forall|k: int| 0 <= k < found.len() ==> captured_first(#[trigger] found[k], captures)
            &&& forall|k: int, m: int|
                0 <= k < m < found.len() ==> (#[trigger] found[k]).start != (
                #[trigger] found[m]).start || found[k].end != found[m].end
        }),
    decreases captures.len(),
{
    if captures.len() > 0 {
        let before = captures.drop_last();
        let last = captures.last();
        let at = captures.len() - 1;
        let init = distinct_spans(before);
        let found = distinct_spans(captures);
        lemma_distinct(before);
        let fresh = last.name == "structural"@ && !crate::nodes::taken(init, last.start, last.end);
        assert forall|k: int| 0 <= k < init.len() implies found[k] == #[trigger] init[k] by {}
        assert forall|i: int|
            0 <= i < captures.len() && (#[trigger] captures[i]).name
                == "structural"@ implies exists|k: int|
            0 <= k < found.len() && stands_for(#[trigger] found[k], captures[i]) by {
            if i < at {
                assert(before[i] == captures[i]);
                let k = choose|k: int|
                    0 <= k < init.len() && stands_for(#[trigger] init[k], before[i]);
                assert(stands_for(found[k], captures[i]));
            } else if fresh {
                assert(stands_for(found[init.len() as int], captures[i]));
            } else {
                let k = choose|k: int|
                    0 <= k < init.len() && (#[trigger] init[k]).start == last.start && init[k].end
                        == last.end;
                assert(stands_for(found[k], captures[i]));
            }
        }
        assert forall|k: int| 0 <= k < found.len() implies captured_first(
            #[trigger] found[k],
            captures,
        ) by {
            if k < init.len() {
                assert(found[k] == init[k]);
                assert(captured_first(init[k], before));
                let i = choose|i: int| #[trigger] first_for(init[k], before, i);
                assert(captures[i] == before[i]);
                assert forall|m: int| 0 <= m < i implies !stands_for(
                    found[k],
                    #[trigger] captures[m],
                ) by {
                    assert(captures[m] == before[m]);
                }
                assert(first_for(found[k], captures, i));
            } else {
                assert(found[k] == captured_span(last));
                assert forall|m: int| 0 <= m < at implies !stands_for(
                    found[k],
                    #[trigger] captures[m],
                ) by {
                    if stands_for(found[k], captures[m]) {
                        assert(before[m] == captures[m]);
                        let j = choose|j: int|
                            0 <= j < init.len() && stands_for(#[trigger] init[j], before[m]);
                        assert(init[j].start == last.start && init[j].end == last.end);
                    }
                }
                assert(first_for(found[k], captures, at));
            }
        }
        assert forall|k: int, m: int| 0 <= k < m < found.len() implies (#[trigger] found[k]).start
            != (#[trigger] found[m]).start || found[k].end != found[m].end by {
            assert(found[k] == init[k]);
            if m < init.len() {
                assert(found[m] == init[m]);
            } else {
                assert(!(init[k].start == last.start && init[k].end == last.end));
            }
        }
    }
}

/// A text is held by its spans where it is structural: of each structural capture
/// that starts and ends between characters and holds no other node, each byte is in
/// one of the spans of the text.
pub proof fn law_source_is_held(
    captures: Seq<CaptureView>,
    source: Seq<char>,
    max: int,
    index: int,
    at: int,
)
    requires
        0 <= max,
        forall|i: int|
            0 <= i < captures.len() && (#[trigger] captures[i]).name == "structural"@ ==> 0
                <= captures[i].start <= captures[i].end <= bytes_of(source).len() && cut_ok(
                bytes_of(source),
                captures[i].start,
            ) && cut_ok(bytes_of(source), captures[i].end),
        0 <= index < node_order(captures).len(),
        forall|j: int|
            0 <= j < node_order(captures).len() ==> #[trigger] parent_of(node_order(captures), j)
                != Some(index),
        node_order(captures)[index].start <= at < node_order(captures)[index].end,
    ensures
        structural_spans(node_order(captures), bytes_of(source), max) is Some,
        held(at, at + 1, structural_spans(node_order(captures), bytes_of(source), max)->0),
{
    let bytes = bytes_of(source);
    let nodes = node_order(captures);
    encode_utf8_valid_utf8(source);
    lemma_captures_well_placed(captures, bytes);
    law_leaf_is_held(nodes, bytes, index, max, at);
}

/// What is structural of a text is in its chunks: of each structural capture that
/// starts and ends between characters and holds no other node, each byte is in one of
/// the spans that chunks are made of, whatever the overlap.
pub proof fn law_source_is_in_chunks(
    captures: Seq<CaptureView>,
    source: Seq<char>,
    max: int,
    overlap: int,
    index: int,
    at: int,
)
    requires
        0 <= max,
        0 <= overlap,
        forall|i: int|
            0 <= i < captures.len() && (#[trigger] captures[i]).name == "structural"@ ==> 0
                <= captures[i].start <= captures[i].end <= bytes_of(source).len() && cut_ok(
                bytes_of(source),
                captures[i].start,
            ) && cut_ok(bytes_of(source), captures[i].end),
        0 <= index < node_order(captures).len(),
        forall|j: int|
            0 <= j < node_order(captures).len() ==> #[trigger] parent_of(node_order(captures), j)
                != Some(index),
        node_order(captures)[index].start <= at < node_order(captures)[index].end,
    ensures
        structural_plan(node_order(captures), bytes_of(source), max, overlap) is Some,
        held(
            at,
            at + 1,
            structural_plan(node_order(captures), bytes_of(source), max, overlap)->0,
        ),
{
    let bytes = bytes_of(source);
    let nodes = node_order(captures);
    encode_utf8_valid_utf8(source);
    law_source_is_held(captures, source, max, index, at);
    lemma_captures_well_placed(captures, bytes);
    law_plan_holds_spans(nodes, bytes, max, overlap);
    let spans = structural_spans(nodes, bytes, max)->0;
    let out = structural_plan(nodes, bytes, max, overlap)->0;
    let i = choose|i: int|
        0 <= i < spans.len() && (#[trigger] spans[i]).start <= at && at + 1 <= spans[i].end;
    assert(held(spans[i].start, spans[i].end, out));
    let k = choose|k: int|
        0 <= k < out.len() && (#[trigger] out[k]).start <= spans[i].start && spans[i].end
            <= out[k].end;
    assert(out[k].start <= at && at + 1 <= out[k].end);
}

/// The nodes of captures that can be cut out are well placed.
proof fn lemma_captures_well_placed(captures: Seq<CaptureView>, bytes: Seq<u8>)
    requires
        forall|i: int|
            0 <= i < captures.len() && (#[trigger] captures[i]).name == "structural"@ ==> 0
                <= captures[i].start <= captures[i].end <= bytes.len() && cut_ok(
                bytes,
                captures[i].start,
            ) && cut_ok(bytes, captures[i].end),
    ensures
        well_placed(node_order(captures), bytes),
{
    let nodes = node_order(captures);
    law_captures_become_nodes(captures);
    assert forall|k: int| 0 <= k < nodes.len() implies 0 <= (#[trigger] nodes[k]).start
        <= nodes[k].end <= bytes.len() && is_char_boundary(bytes, nodes[k].start)
        && is_char_boundary(bytes, nodes[k].end) by {
        assert(captured_first(nodes[k], captures));
        let i = choose|i: int| #[trigger] first_for(nodes[k], captures, i);
        assert(captures[i].name == "structural"@);
    }
}

} // verus!
