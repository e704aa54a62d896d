//! What holds of structural nodes, however they are captured.
use crate::chunker::{fallback_pieces, piece, structural_pieces, structural_plan, tree_contexts};
use crate::context::{
    context_path, covering, covers, first_json_string, first_xml_name, json_names, xml_name,
    xml_names,
};
use crate::lines::{bytes_of, range_ok};
use crate::nodes::{
    captured_span, child_spans, children_of, distinct_spans, lemma_children, lemma_open_before,
    node_order, node_spans, parent_of, root_spans, structural_spans, CaptureView, NodeSpan,
};
use crate::sorting::{in_order, lemma_in_order, lemma_in_order_contains, rank_le, ranking};
use crate::span_laws::{
    all_cut, cuts, law_fallback_limited, law_merged_limited, law_text_is_chunked,
    lemma_fallback_cuts, lemma_overlap_cuts, limited,
};
use crate::spans::{
    by_size, by_start, combined, distance, fits, merged, merged_from, outermost, pruned, tokens,
    ChunkSpan, Span,
};
use crate::syntax::{chain_of, ChildView, SyntaxView};
use vstd::prelude::*;
use vstd::utf8::*;

verus! {

/// A node lies inside its parent, and the parent stands before it.
pub proof fn law_parent_holds_child(captures: Seq<CaptureView>, index: int)
    requires
        0 <= index < node_order(captures).len(),
    ensures
        ({
            let nodes = node_order(captures);
            match parent_of(nodes, index) {
                Some(parent) => {
                    &&& 0 <= parent < index
                    &&& nodes[parent].start <= nodes[index].start
                    &&& nodes[index].end <= nodes[parent].end
                },
                None => true,
            }
        }),
{
    let nodes = node_order(captures);
    let rank = ranking::<NodeSpan>(false);
    lemma_in_order(distinct_spans(captures), rank);
    lemma_open_before(nodes, index, index);
    match parent_of(nodes, index) {
        Some(parent) => {
            assert(rank_le(rank(nodes[parent]), rank(nodes[index])));
        },
        None => {},
    }
}

/// A node is a child of no other node than its parent, and of its parent once.
pub proof fn law_children_have_one_parent(nodes: Seq<Span>, parent: int, child: int)
    requires
        0 <= child < nodes.len(),
    ensures
        children_of(nodes, parent, nodes.len() as int).contains(child) <==> parent_of(nodes, child)
            == Some(parent),
        children_of(nodes, parent, nodes.len() as int).no_duplicates(),
{
    lemma_children_are(nodes, parent, nodes.len() as int, child);
}

/// The children found so far are the nodes so far with this parent.
proof fn lemma_children_are(nodes: Seq<Span>, parent: int, before: int, child: int)
    requires
        0 <= before,
    ensures
        children_of(nodes, parent, before).contains(child) <==> 0 <= child < before && parent_of(
            nodes,
            child,
        ) == Some(parent),
        children_of(nodes, parent, before).no_duplicates(),
    decreases before,
{
    lemma_children(nodes, parent, before);
    if before > 0 {
        let init = children_of(nodes, parent, before - 1);
        let all = children_of(nodes, parent, before);
        lemma_children_are(nodes, parent, before - 1, child);
        lemma_children(nodes, parent, before - 1);
        if parent_of(nodes, before - 1) == Some(parent) {
            assert(all[init.len() as int] == before - 1);
            if init.contains(child) {
                let k = choose|k: int| 0 <= k < init.len() && init[k] == child;
                assert(all[k] == child);
            }
            if all.contains(child) && child != before - 1 {
                let k = choose|k: int| 0 <= k < all.len() && all[k] == child;
                assert(init[k] == child);
            }
            assert forall|i: int, j: int| 0 <= i < all.len() && 0 <= j < all.len() && i
                != j implies all[i] != all[j] by {
                if i < init.len() {
                    assert(init[i] < before - 1);
                }
                if j < init.len() {
                    assert(init[j] < before - 1);
                }
            }
        }
    }
}

// ---------------------------------------------------------------------------
// Limits
// ---------------------------------------------------------------------------

/// Whether each node lies inside the text.
pub open spec fn in_text(nodes: Seq<Span>, bytes: Seq<u8>) -> bool {
    forall|i: int|
        0 <= i < nodes.len() ==> 0 <= (#[trigger] nodes[i]).start && 0 <= nodes[i].end
            <= bytes.len()
}

/// Whether each span is within the limit.
pub open spec fn all_limited(spans: Seq<Span>, max: int) -> bool {
    forall|i: int| 0 <= i < spans.len() ==> limited(#[trigger] spans[i], max)
}

/// Sorted spans are within the limit where they were so before.
proof fn lemma_sorted_limited(
    spans: Seq<Span>,
    rank: spec_fn(Span) -> (int, int),
    max: int,
)
    requires
        all_limited(spans, max),
    ensures
        all_limited(in_order(spans, rank), max),
{
    let sorted = in_order(spans, rank);
    assert forall|i: int| 0 <= i < sorted.len() implies limited(#[trigger] sorted[i], max) by {
        lemma_in_order_contains(spans, rank, sorted[i]);
        assert(sorted.contains(sorted[i]));
    }
}

/// The spans of a node are within the limit.
proof fn lemma_node_limited(nodes: Seq<Span>, bytes: Seq<u8>, index: int, max: int)
    requires
        valid_utf8(bytes),
        0 <= max,
        in_text(nodes, bytes),
        0 <= index < nodes.len(),
    ensures
        match node_spans(nodes, bytes, index, max) {
            Some(spans) => all_limited(spans, max),
            None => true,
        },
    decreases nodes.len() - index, children_of(nodes, index, nodes.len() as int).len() + 1,
{
    let node = nodes[index];
    let children = children_of(nodes, index, nodes.len() as int);
    if fits(tokens(distance(node.start, node.end)), max) {
    } else if children.len() == 0 {
        if range_ok(bytes, node.start, node.end) {
            law_fallback_limited(bytes, node.start, node.end, node.first_line, max, node.kind);
        }
    } else {
        lemma_child_limited(nodes, bytes, index, children.len() as int, max);
        match child_spans(nodes, bytes, index, children.len() as int, max) {
            Some(spans) => {
                lemma_sorted_limited(spans, ranking::<ChunkSpan>(false), max);
                let sorted = by_start(spans);
                law_merged_limited(sorted, max, node.kind);
                let out = merged(sorted, max, node.kind);
                assert forall|i: int| 0 <= i < out.len() implies limited(
                    #[trigger] out[i],
                    max,
                ) by {
                    if sorted.contains(out[i]) {
                        let k = choose|k: int| 0 <= k < sorted.len() && sorted[k] == out[i];
                        assert(limited(sorted[k], max));
                    }
                }
            },
            None => {},
        }
    }
}

/// The spans of children are within the limit.
proof fn lemma_child_limited(nodes: Seq<Span>, bytes: Seq<u8>, index: int, count: int, max: int)
    requires
        valid_utf8(bytes),
        0 <= max,
        in_text(nodes, bytes),
        0 <= index < nodes.len(),
    ensures
        match child_spans(nodes, bytes, index, count, max) {
            Some(spans) => all_limited(spans, max),
            None => true,
        },
    decreases nodes.len() - index, count,
{
    let children = children_of(nodes, index, nodes.len() as int);
    if 0 < count <= children.len() {
        let child = children[count - 1];
        if index < child < nodes.len() {
            lemma_child_limited(nodes, bytes, index, count - 1, max);
            lemma_node_limited(nodes, bytes, child, max);
        }
    }
}

/// The spans of the roots are within the limit.
proof fn lemma_roots_limited(nodes: Seq<Span>, bytes: Seq<u8>, before: int, max: int)
    requires
        valid_utf8(bytes),
        0 <= max,
        in_text(nodes, bytes),
        before <= nodes.len(),
    ensures
        match root_spans(nodes, bytes, before, max) {
            Some(spans) => all_limited(spans, max),
            None => true,
        },
    decreases before,
{
    if before > 0 {
        lemma_roots_limited(nodes, bytes, before - 1, max);
        lemma_node_limited(nodes, bytes, before - 1, max);
    }
}

/// What is kept is within the limit where all of it was.
proof fn lemma_outermost_limited(spans: Seq<Span>, max: int)
    requires
        all_limited(spans, max),
    ensures
        all_limited(outermost(spans), max),
    decreases spans.len(),
{
    if spans.len() > 0 {
        let before = spans.drop_last();
        assert forall|i: int| 0 <= i < before.len() implies limited(
            #[trigger] before[i],
            max,
        ) by {
            assert(spans[i] == before[i]);
        }
        lemma_outermost_limited(before, max);
        assert(limited(spans[spans.len() - 1], max));
    }
}

/// A text that is cut along its structural nodes gives spans within the limit.
pub proof fn law_structure_limited(nodes: Seq<Span>, bytes: Seq<u8>, max: int)
    requires
        valid_utf8(bytes),
        0 <= max,
        in_text(nodes, bytes),
    ensures
        match structural_spans(nodes, bytes, max) {
            Some(spans) => all_limited(spans, max),
            None => true,
        },
{
    lemma_roots_limited(nodes, bytes, nodes.len() as int, max);
    match root_spans(nodes, bytes, nodes.len() as int, max) {
        Some(spans) => {
            let first = by_start(spans);
            lemma_sorted_limited(spans, ranking::<ChunkSpan>(false), max);
            lemma_sorted_limited(first, ranking::<ChunkSpan>(true), max);
            lemma_outermost_limited(by_size(first), max);
            lemma_sorted_limited(
                outermost(by_size(first)),
                ranking::<ChunkSpan>(false),
                max,
            );
        },
        None => {},
    }
}

// ---------------------------------------------------------------------------
// Where a text can be cut
// ---------------------------------------------------------------------------

/// Sorted spans are cut between characters where they were so before.
proof fn lemma_sorted_cut(spans: Seq<Span>, rank: spec_fn(Span) -> (int, int), bytes: Seq<u8>)
    requires
        all_cut(spans, bytes),
    ensures
        all_cut(in_order(spans, rank), bytes),
{
    let sorted = in_order(spans, rank);
    assert forall|i: int| 0 <= i < sorted.len() implies cuts(#[trigger] sorted[i], bytes) by {
        lemma_in_order_contains(spans, rank, sorted[i]);
        assert(sorted.contains(sorted[i]));
    }
}

/// Merged spans are cut between characters where all of them were.
proof fn lemma_merged_cut(
    active: Span,
    rest: Seq<Span>,
    max: int,
    kind: Seq<char>,
    bytes: Seq<u8>,
)
    requires
        cuts(active, bytes),
        all_cut(rest, bytes),
    ensures
        all_cut(merged_from(active, rest, max, kind), bytes),
    decreases rest.len(),
{
    if rest.len() > 0 {
        let joins = fits(tokens(distance(active.start, rest[0].end)), max);
        let next = if joins {
            combined(active, rest[0], kind)
        } else {
            rest[0]
        };
        let behind = merged_from(next, rest.drop_first(), max, kind);
        let all = merged_from(active, rest, max, kind);
        assert(cuts(rest[0], bytes));
        lemma_merged_cut(next, rest.drop_first(), max, kind, bytes);
        assert forall|i: int| 0 <= i < all.len() implies cuts(#[trigger] all[i], bytes) by {
            if joins {
                assert(all[i] == behind[i]);
            } else if i > 0 {
                assert(all[i] == behind[i - 1]);
            }
        }
    }
}

/// Where nodes are cut between characters, a node gives spans that are so too.
proof fn lemma_node_cut(nodes: Seq<Span>, bytes: Seq<u8>, index: int, max: int)
    requires
        valid_utf8(bytes),
        0 <= max,
        all_cut(nodes, bytes),
        0 <= index < nodes.len(),
    ensures
        match node_spans(nodes, bytes, index, max) {
            Some(spans) => all_cut(spans, bytes),
            None => false,
        },
    decreases nodes.len() - index, children_of(nodes, index, nodes.len() as int).len() + 1,
{
    let node = nodes[index];
    let children = children_of(nodes, index, nodes.len() as int);
    assert(cuts(node, bytes));
    if fits(tokens(distance(node.start, node.end)), max) {
    } else if children.len() == 0 {
        lemma_fallback_cuts(bytes, node.start, node.end, node.first_line, max, node.kind);
    } else {
        lemma_children_cut(nodes, bytes, index, children.len() as int, max);
        let spans = child_spans(nodes, bytes, index, children.len() as int, max)->0;
        lemma_sorted_cut(spans, ranking::<ChunkSpan>(false), bytes);
        let sorted = by_start(spans);
        if sorted.len() > 0 {
            lemma_merged_cut(sorted[0], sorted.drop_first(), max, node.kind, bytes);
        }
    }
}

/// Where nodes are cut between characters, the children of a node give spans that
/// are so too.
proof fn lemma_children_cut(nodes: Seq<Span>, bytes: Seq<u8>, index: int, count: int, max: int)
    requires
        valid_utf8(bytes),
        0 <= max,
        all_cut(nodes, bytes),
        0 <= index < nodes.len(),
    ensures
        match child_spans(nodes, bytes, index, count, max) {
            Some(spans) => all_cut(spans, bytes),
            None => false,
        },
    decreases nodes.len() - index, count,
{
    let children = children_of(nodes, index, nodes.len() as int);
    if 0 < count <= children.len() {
        let child = children[count - 1];
        lemma_children(nodes, index, nodes.len() as int);
        lemma_children_cut(nodes, bytes, index, count - 1, max);
        lemma_node_cut(nodes, bytes, child, max);
    }
}

/// Where nodes are cut between characters, the roots give spans that are so too.
proof fn lemma_roots_cut(nodes: Seq<Span>, bytes: Seq<u8>, before: int, max: int)
    requires
        valid_utf8(bytes),
        0 <= max,
        all_cut(nodes, bytes),
        before <= nodes.len(),
    ensures
        match root_spans(nodes, bytes, before, max) {
            Some(spans) => all_cut(spans, bytes),
            None => false,
        },
    decreases before,
{
    if before > 0 {
        lemma_roots_cut(nodes, bytes, before - 1, max);
        lemma_node_cut(nodes, bytes, before - 1, max);
    }
}

/// What is kept is cut between characters where all of it was.
proof fn lemma_outermost_cut(spans: Seq<Span>, bytes: Seq<u8>)
    requires
        all_cut(spans, bytes),
    ensures
        all_cut(outermost(spans), bytes),
    decreases spans.len(),
{
    if spans.len() > 0 {
        let before = spans.drop_last();
        assert forall|i: int| 0 <= i < before.len() implies cuts(#[trigger] before[i], bytes) by {
            assert(spans[i] == before[i]);
        }
        lemma_outermost_cut(before, bytes);
        assert(cuts(spans[spans.len() - 1], bytes));
    }
}

/// A text whose structural nodes start and end between characters is always cut
/// along them, whatever the limit and the overlap, and always between characters.
pub proof fn law_structure_is_cut(nodes: Seq<Span>, source: Seq<char>, max: int, overlap: int)
    requires
        all_cut(nodes, bytes_of(source)),
        0 <= max,
        0 <= overlap,
    ensures
        match structural_plan(nodes, bytes_of(source), max, overlap) {
            Some(spans) => all_cut(spans, bytes_of(source)),
            None => false,
        },
{
    let bytes = bytes_of(source);
    encode_utf8_valid_utf8(source);
    lemma_roots_cut(nodes, bytes, nodes.len() as int, max);
    let spans = root_spans(nodes, bytes, nodes.len() as int, max)->0;
    let first = by_start(spans);
    lemma_sorted_cut(spans, ranking::<ChunkSpan>(false), bytes);
    lemma_sorted_cut(first, ranking::<ChunkSpan>(true), bytes);
    lemma_outermost_cut(by_size(first), bytes);
    lemma_sorted_cut(outermost(by_size(first)), ranking::<ChunkSpan>(false), bytes);
    lemma_overlap_cuts(pruned(first), bytes, overlap, max);
}

// ---------------------------------------------------------------------------
// Contexts
// ---------------------------------------------------------------------------

/// Whether the child in the field and the other children of a node can be cut out
/// of the text.
pub open spec fn children_cut(node: SyntaxView, bytes: Seq<u8>) -> bool {
    &&& match node.field {
        Some(child) => range_ok(bytes, child.start, child.end),
        None => true,
    }
    &&& forall|i: int|
        0 <= i < node.children.len() ==> range_ok(
            bytes,
            (#[trigger] node.children[i]).start,
            node.children[i].end,
        )
}

/// Whether the children of all nodes of a tree that a context is read from can be
/// cut out of the text.
pub open spec fn tree_cut(tree: tree_sitter::Tree, bytes: Seq<u8>) -> bool {
    forall|start: int, end: int, field: Seq<char>, at: int|
        #![trigger chain_of(tree, start, end, field)->0[at]]
        chain_of(tree, start, end, field) is Some && 0 <= at < (chain_of(
            tree,
            start,
            end,
            field,
        )->0).len() ==> children_cut(chain_of(tree, start, end, field)->0[at], bytes)
}

/// The first child that holds a name is one of the children.
proof fn lemma_first_xml_name(children: Seq<ChildView>)
    ensures
        first_xml_name(children) is Some ==> children.contains(first_xml_name(children)->0),
    decreases children.len(),
{
    if children.len() > 0 {
        lemma_first_xml_name(children.drop_first());
        if xml_name(children[0].kind) {
            assert(children.contains(children[0]));
        } else if first_xml_name(children) is Some {
            let rest = children.drop_first();
            let k = choose|k: int| 0 <= k < rest.len() && rest[k] == first_xml_name(children)->0;
            assert(children[k + 1] == rest[k]);
        }
    }
}

/// The first string among the children is one of the children.
proof fn lemma_first_json_string(children: Seq<ChildView>)
    ensures
        first_json_string(children) is Some ==> children.contains(first_json_string(children)->0),
    decreases children.len(),
{
    if children.len() > 0 {
        lemma_first_json_string(children.drop_first());
        if children[0].kind == "string"@ {
            assert(children.contains(children[0]));
        } else if first_json_string(children) is Some {
            let rest = children.drop_first();
            let k = choose|k: int|
                0 <= k < rest.len() && rest[k] == first_json_string(children)->0;
            assert(children[k + 1] == rest[k]);
        }
    }
}

/// The names of elements can be read.
proof fn lemma_xml_names(chain: Seq<SyntaxView>, bytes: Seq<u8>, at: int)
    requires
        0 <= at,
        forall|i: int| 0 <= i < chain.len() ==> children_cut(#[trigger] chain[i], bytes),
    ensures
        xml_names(chain, bytes, at) is Some,
    decreases chain.len() - at,
{
    if at < chain.len() {
        lemma_xml_names(chain, bytes, at + 1);
        assert(children_cut(chain[at], bytes));
        lemma_first_xml_name(chain[at].children);
    }
}

/// The keys and places can be read.
proof fn lemma_json_names(chain: Seq<SyntaxView>, bytes: Seq<u8>, from: int, at: int)
    requires
        0 <= at,
        forall|i: int| 0 <= i < chain.len() ==> children_cut(#[trigger] chain[i], bytes),
    ensures
        json_names(chain, bytes, from, at) is Some,
    decreases chain.len() - at,
{
    if at < chain.len() {
        lemma_json_names(chain, bytes, from, at + 1);
        assert(children_cut(chain[at], bytes));
        lemma_first_json_string(chain[at].children);
    }
}

/// The node that a path starts from is one of the chain.
proof fn lemma_covering(chain: Seq<SyntaxView>, start: int, end: int, at: int)
    ensures
        at <= covering(chain, start, end, at),
    decreases chain.len() - at,
{
    if at + 1 < chain.len() && !covers(chain[at], start, end) {
        lemma_covering(chain, start, end, at + 1);
    }
}

/// Where the nodes of a tree can be cut out, the context of every span can be
/// read.
pub proof fn law_context_is_read(
    language: Seq<char>,
    tree: tree_sitter::Tree,
    bytes: Seq<u8>,
    span: Span,
)
    requires
        tree_cut(tree, bytes),
    ensures
        context_path(language, tree, bytes, span) is Some,
{
    if language == "xml"@ {
        match chain_of(tree, span.start, span.end, "name"@) {
            Some(chain) => {
                let from = covering(chain, span.start, span.end, 0);
                lemma_covering(chain, span.start, span.end, 0);
                lemma_xml_names(chain, bytes, from);
            },
            None => {},
        }
    } else if language == "json"@ {
        match chain_of(tree, span.start, span.end, "key"@) {
            Some(chain) => {
                let from = covering(chain, span.start, span.end, 0);
                lemma_covering(chain, span.start, span.end, 0);
                lemma_json_names(chain, bytes, from, from);
            },
            None => {},
        }
    }
}

/// Whether the captured structural nodes start and end between characters.
pub open spec fn captures_cut(captures: Seq<CaptureView>, bytes: Seq<u8>) -> bool {
    forall|i: int|
        0 <= i < captures.len() && (#[trigger] captures[i]).name == "structural"@ ==> cuts(
            captured_span(captures[i]),
            bytes,
        )
}

/// The spans of captures are cut between characters where the captures are.
proof fn lemma_distinct_cut(captures: Seq<CaptureView>, bytes: Seq<u8>)
    requires
        captures_cut(captures, bytes),
    ensures
        all_cut(distinct_spans(captures), bytes),
    decreases captures.len(),
{
    if captures.len() > 0 {
        let before = captures.drop_last();
        assert(captures_cut(before, bytes)) by {
            assert forall|i: int|
                0 <= i < before.len() && (#[trigger] before[i]).name == "structural"@ implies cuts(
                captured_span(before[i]),
                bytes,
            ) by {
                assert(captures[i] == before[i]);
            }
        }
        lemma_distinct_cut(before, bytes);
        assert(captures[captures.len() - 1] == captures.last());
    }
}

/// A text is always cut into chunks where its structural nodes start and end
/// between characters and the nodes that a context is read from can be cut out; one
/// without structural nodes is always cut into those that it has by lines.
pub proof fn law_source_is_chunked(
    path: Seq<char>,
    language: Seq<char>,
    source: Seq<char>,
    tree: tree_sitter::Tree,
    captures: Seq<CaptureView>,
    max: int,
    overlap: int,
)
    requires
        0 <= max,
        0 <= overlap,
    ensures
        captures_cut(captures, bytes_of(source)) && tree_cut(tree, bytes_of(source))
            ==> structural_pieces(path, language, source, tree, captures, max, overlap) is Some,
        distinct_spans(captures).len() == 0 ==> structural_pieces(
            path,
            language,
            source,
            tree,
            captures,
            max,
            overlap,
        ) is Some && structural_pieces(path, language, source, tree, captures, max, overlap)
            == fallback_pieces(path, language, source, max, overlap),
{
    let bytes = bytes_of(source);
    law_text_is_chunked(path, language, source, max, overlap);
    if distinct_spans(captures).len() > 0 && captures_cut(captures, bytes) && tree_cut(tree, bytes) {
        let nodes = node_order(captures);
        lemma_distinct_cut(captures, bytes);
        lemma_sorted_cut(distinct_spans(captures), ranking::<NodeSpan>(false), bytes);
        law_structure_is_cut(nodes, source, max, overlap);
        let spans = structural_plan(nodes, bytes, max, overlap)->0;
        let contexts = tree_contexts(language, tree, bytes, spans);
        assert forall|i: int| 0 <= i < spans.len() implies piece(
            path,
            language,
            bytes,
            #[trigger] spans[i],
            contexts[i],
        ) is Some by {
            assert(cuts(spans[i], bytes));
            law_context_is_read(language, tree, bytes, spans[i]);
        }
    }
}

} // verus!
