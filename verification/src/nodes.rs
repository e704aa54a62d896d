//! The structural nodes of a source text: which captures of a query count,
//! how they nest, and how a node is cut into spans.
use crate::lines::{bytes_of, capped, range_ok};
use crate::sorting::{ascending, in_order, lemma_in_order, ranking, sort_items, views, Ranked};
use crate::spans::{
    by_start, distance, estimate_tokens_from_len, fallback_chunk_spans, fallback_spans, fits,
    fits_limits, merge_spans, merged, prune_contained_spans, pruned, spans_of, tokens, ChunkSpan,
    Span,
};
use crate::text::same_text;
use vstd::prelude::*;

verus! {

/// One capture of a structural query: the name that the query gives it, and
/// the node that it captured. Rows count from zero.
#[derive(Clone, Debug)]
pub struct Capture {
    pub name: String,
    pub kind: String,
    pub start_byte: usize,
    pub end_byte: usize,
    pub start_row: usize,
    pub end_row: usize,
}

/// A capture as a mathematical value.
#[verifier::ext_equal]
pub struct CaptureView {
    pub name: Seq<char>,
    pub kind: Seq<char>,
    pub start: int,
    pub end: int,
    pub start_row: int,
    pub end_row: int,
}

impl View for Capture {
    type V = CaptureView;

    open spec fn view(&self) -> CaptureView {
        CaptureView {
            name: self.name@,
            kind: self.kind@,
            start: self.start_byte as int,
            end: self.end_byte as int,
            start_row: self.start_row as int,
            end_row: self.end_row as int,
        }
    }
}

/// A structural node with its place among the others.
#[derive(Clone, Debug)]
pub struct NodeSpan {
    pub start_byte: usize,
    pub end_byte: usize,
    pub start_line: usize,
    pub end_line: usize,
    pub kind: String,
    pub children: Vec<usize>,
    pub parent: Option<usize>,
}

impl View for NodeSpan {
    type V = Span;

    /// The span of the node; how it nests is told by [`nested`].
    open spec fn view(&self) -> Span {
        Span {
            start: self.start_byte as int,
            end: self.end_byte as int,
            first_line: self.start_line as int,
            last_line: self.end_line as int,
            kind: self.kind@,
        }
    }
}

impl Ranked for NodeSpan {
    /// Nodes are ordered by where they start, then by where they end.
    open spec fn rank(item: Span, second: bool) -> (int, int) {
        (item.start, item.end)
    }

    fn rank_of(&self, second: bool) -> (rank: (usize, usize)) {
        (self.start_byte, self.end_byte)
    }
}

// ---------------------------------------------------------------------------
// Which captures count
// ---------------------------------------------------------------------------

/// The span of a captured node. Lines count from one.
pub open spec fn captured_span(capture: CaptureView) -> Span {
    Span {
        start: capture.start,
        end: capture.end,
        first_line: capped(capture.start_row + 1),
        last_line: capped(capture.end_row + 1),
        kind: capture.kind,
    }
}

/// Whether one of `spans` lies on the bytes from `start` to `end`.
pub open spec fn taken(spans: Seq<Span>, start: int, end: int) -> bool {
    exists|k: int| 0 <= k < spans.len() && (#[trigger] spans[k]).start == start && spans[k].end == end
}

/// The spans of the captures named `structural`, of several on the same bytes
/// only the first.
pub open spec fn distinct_spans(captures: Seq<CaptureView>) -> Seq<Span>
    decreases captures.len(),
{
    if captures.len() == 0 {
        Seq::empty()
    } else {
        let init = distinct_spans(captures.drop_last());
        let last = captures.last();
        if last.name == "structural"@ && !taken(init, last.start, last.end) {
            init.push(captured_span(last))
        } else {
            init
        }
    }
}

/// The structural nodes in order.
pub open spec fn node_order(captures: Seq<CaptureView>) -> Seq<Span> {
    in_order(distinct_spans(captures), ranking::<NodeSpan>(false))
}

/// The first and the last line of a node, counted from one.
pub fn node_lines(start_row: usize, end_row: usize) -> (lines: (usize, usize))
    ensures
        lines.0 == capped(start_row + 1),
        lines.1 == capped(end_row + 1),
{
    (start_row.saturating_add(1), end_row.saturating_add(1))
}

// ---------------------------------------------------------------------------
// How nodes nest
// ---------------------------------------------------------------------------

/// The last node before `before` that ends behind the start of node `index`.
pub open spec fn open_before(nodes: Seq<Span>, index: int, before: int) -> Option<int>
    decreases before,
{
    if before <= 0 {
        None
    } else if nodes[before - 1].end > nodes[index].start {
        Some(before - 1)
    } else {
        open_before(nodes, index, before - 1)
    }
}

/// The node that node `index` lies in: the last one before it that has not
/// ended where it starts, provided it does not end before it.
pub open spec fn parent_of(nodes: Seq<Span>, index: int) -> Option<int> {
    match open_before(nodes, index, index) {
        Some(parent) => if nodes[index].end <= nodes[parent].end {
            Some(parent)
        } else {
            None
        },
        None => None,
    }
}

/// The nodes before `before` that lie directly in node `parent`, in order.
pub open spec fn children_of(nodes: Seq<Span>, parent: int, before: int) -> Seq<int>
    decreases before,
{
    if before <= 0 {
        Seq::empty()
    } else {
        let init = children_of(nodes, parent, before - 1);
        if parent_of(nodes, before - 1) == Some(parent) {
            init.push(before - 1)
        } else {
            init
        }
    }
}

/// The numbers of a vector of indices.
pub open spec fn indices(list: Seq<usize>) -> Seq<int> {
    Seq::new(list.len(), |i: int| list[i] as int)
}

/// An index, if there is one.
pub open spec fn index_of(index: Option<usize>) -> Option<int> {
    match index {
        Some(index) => Some(index as int),
        None => None,
    }
}

/// Whether each node knows its parent and its children.
pub open spec fn nested(nodes: Seq<NodeSpan>) -> bool {
    forall|i: int|
        0 <= i < nodes.len() ==> {
            &&& index_of((#[trigger] nodes[i]).parent) == parent_of(views(nodes), i)
            &&& indices(nodes[i].children@) == children_of(views(nodes), i, nodes.len() as int)
        }
}

/// A parent stands before its child and has not ended where the child starts.
pub proof fn lemma_open_before(nodes: Seq<Span>, index: int, before: int)
    requires
        0 <= before,
    ensures
        match open_before(nodes, index, before) {
            Some(at) => 0 <= at < before && nodes[at].end > nodes[index].start && forall|k: int|
                at < k < before ==> (#[trigger] nodes[k]).end <= nodes[index].start,
            None => forall|k: int|
                0 <= k < before ==> (#[trigger] nodes[k]).end <= nodes[index].start,
        },
    decreases before,
{
    if before > 0 && nodes[before - 1].end <= nodes[index].start {
        lemma_open_before(nodes, index, before - 1);
    }
}

/// Children stand behind their parent, in ascending order.
pub proof fn lemma_children(nodes: Seq<Span>, parent: int, before: int)
    ensures
        forall|k: int|
            0 <= k < children_of(nodes, parent, before).len() ==> {
                let child = #[trigger] children_of(nodes, parent, before)[k];
                0 <= parent < child < before && parent_of(nodes, child) == Some(parent)
            },
    decreases before,
{
    if before > 0 {
        lemma_children(nodes, parent, before - 1);
        lemma_open_before(nodes, before - 1, before - 1);
    }
}

/// What is known of the stack of open nodes when node `index` is looked at.
spec fn open_stack(nodes: Seq<Span>, stack: Seq<usize>, index: int) -> bool {
    &&& forall|a: int, b: int| 0 <= a < b < stack.len() ==> stack[a] < stack[b]
    &&& forall|a: int| 0 <= a < stack.len() ==> #[trigger] stack[a] < index
    &&& forall|k: int|
        0 <= k < index && index < nodes.len() && !stack.contains(k as usize) ==> (
        #[trigger] nodes[k]).end <= nodes[index].start
}

/// The structural nodes that a query captured, each with its parent and its
/// children.
pub fn extract_nodes(captures: &Vec<Capture>) -> (nodes: Vec<NodeSpan>)
    ensures
        views(nodes@) == node_order(views(captures@)),
        nested(nodes@),
{
    let ghost all = views(captures@);
    let mut found: Vec<NodeSpan> = Vec::new();
    let mut i: usize = 0;
    assert(views(found@) =~= distinct_spans(all.take(0)));
    while i < captures.len()
        invariant
            i <= captures@.len(),
            all == views(captures@),
            views(found@) == distinct_spans(all.take(i as int)),
            forall|k: int|
                0 <= k < found@.len() ==> (#[trigger] found@[k]).parent is None
                    && found@[k].children@.len() == 0,
        decreases captures@.len() - i,
    {
        proof {
            assert(all.take(i + 1).drop_last() =~= all.take(i as int));
        }
        let capture = &captures[i];
        if same_text(capture.name.as_str(), "structural") {
            let mut seen = false;
            let mut k: usize = 0;
            while k < found.len() && !seen
                invariant
                    k <= found@.len(),
                    seen == exists|j: int|
                        0 <= j < k && (#[trigger] found@[j]).start_byte == capture.start_byte
                            && found@[j].end_byte == capture.end_byte,
                decreases found@.len() - k,
            {
                if found[k].start_byte == capture.start_byte && found[k].end_byte
                    == capture.end_byte {
                    seen = true;
                }
                k = k + 1;
            }
            proof {
                let before = views(found@);
                if seen {
                    let j = choose|j: int|
                        0 <= j < k && (#[trigger] found@[j]).start_byte == capture.start_byte
                            && found@[j].end_byte == capture.end_byte;
                    assert(before[j].start == capture.start_byte);
                } else if taken(before, capture@.start, capture@.end) {
                    let j = choose|j: int|
                        0 <= j < before.len() && (#[trigger] before[j]).start == capture@.start
                            && before[j].end == capture@.end;
                    assert(found@[j].start_byte == capture.start_byte);
                }
            }
            if !seen {
                let lines = node_lines(capture.start_row, capture.end_row);
                let node = NodeSpan {
                    start_byte: capture.start_byte,
                    end_byte: capture.end_byte,
                    start_line: lines.0,
                    end_line: lines.1,
                    kind: capture.kind.clone(),
                    children: Vec::new(),
                    parent: None,
                };
                proof {
                    assert(node@ =~= captured_span(all[i as int]));
                    assert(views(found@.push(node)) =~= views(found@).push(node@));
                }
                found.push(node);
            }
        }
        i = i + 1;
    }
    assert(all.take(i as int) =~= all);
    let sorted = sort_items(found, false);
    let ghost order = views(sorted@);
    proof {
        lemma_in_order(distinct_spans(all), ranking::<NodeSpan>(false));
        assert(ascending(order, ranking::<NodeSpan>(false)));
    }
    let count: usize = sorted.len();
    let mut parents: Vec<Option<usize>> = Vec::new();
    let mut children: Vec<Vec<usize>> = Vec::new();
    let mut stack: Vec<usize> = Vec::new();
    let mut index: usize = 0;
    while index < count
        invariant
            index <= count == sorted@.len(),
            order == views(sorted@),
            ascending(order, ranking::<NodeSpan>(false)),
            open_stack(order, stack@, index as int),
            parents@.len() == index,
            children@.len() == index,
            forall|k: int| 0 <= k < index ==> index_of(#[trigger] parents@[k]) == parent_of(order, k),
            forall|k: int|
                0 <= k < index ==> indices((#[trigger] children@[k])@) == children_of(
                    order,
                    k,
                    index as int,
                ),
        decreases count - index,
    {
        assert(order[index as int] == sorted@[index as int]@);
        let mut closing = true;
        while closing && stack.len() > 0
            invariant
                index < count == sorted@.len(),
                order == views(sorted@),
                open_stack(order, stack@, index as int),
                !closing ==> stack@.len() > 0 && order[stack@.last() as int].end
                    > order[index as int].start,
            decreases stack@.len() + if closing {
                1int
            } else {
                0
            },
        {
            let last: usize = stack[stack.len() - 1];
            assert(order[last as int] == sorted@[last as int]@);
            assert(order[index as int] == sorted@[index as int]@);
            if sorted[index].start_byte >= sorted[last].end_byte {
                let ghost before = stack@;
                let _ = stack.pop();
                proof {
                    assert forall|k: int|
                        0 <= k < index && !stack@.contains(k as usize) implies (
                    #[trigger] order[k]).end <= order[index as int].start by {
                        if before.contains(k as usize) {
                            let j = choose|j: int| 0 <= j < before.len() && before[j] == k as usize;
                            if j < stack@.len() {
                                assert(stack@[j] == k as usize);
                            }
                            assert(k == last);
                        }
                    }
                }
            } else {
                closing = false;
            }
        }
        let mut parent: Option<usize> = None;
        proof {
            lemma_open_before(order, index as int, index as int);
            lemma_stack_top(order, stack@, index as int);
        }
        if stack.len() > 0 {
            let top: usize = stack[stack.len() - 1];
            assert(order[top as int] == sorted@[top as int]@);
            if sorted[index].end_byte <= sorted[top].end_byte {
                parent = Some(top);
            }
        }
        assert(index_of(parent) == parent_of(order, index as int));
        let ghost old_children = children@;
        match parent {
            Some(top) => {
                children[top].push(index);
                assert(indices(children@[top as int]@) =~= indices(old_children[top as int]@).push(
                    index as int,
                ));
            },
            None => {},
        }
        proof {
            assert forall|k: int| 0 <= k < index implies indices((#[trigger] children@[k])@)
                == children_of(order, k, index + 1) by {
                assert(indices(old_children[k]@) == children_of(order, k, index as int));
            }
            lemma_children(order, index as int, index + 1);
            let own = children_of(order, index as int, index + 1);
            if own.len() > 0 {
                assert(own[0] < index + 1);
            }
        }
        children.push(Vec::new());
        proof {
            assert(indices(children@[index as int]@) =~= Seq::<int>::empty());
            assert(children_of(order, index as int, index + 1) =~= Seq::<int>::empty());
        }
        parents.push(parent);
        let ghost before = stack@;
        stack.push(index);
        proof {
            let next = index + 1;
            if next < count {
                assert(crate::sorting::rank_le(
                    ranking::<NodeSpan>(false)(order[index as int]),
                    ranking::<NodeSpan>(false)(order[next]),
                ));
                assert forall|k: int|
                    0 <= k < next && !stack@.contains(k as usize) implies (
                #[trigger] order[k]).end <= order[next].start by {
                    assert(stack@[stack@.len() - 1] == index);
                    if before.contains(k as usize) {
                        let j = choose|j: int| 0 <= j < before.len() && before[j] == k as usize;
                        assert(stack@[j] == k as usize);
                    }
                }
            }
        }
        index = index + 1;
    }
    let mut nodes: Vec<NodeSpan> = Vec::new();
    let mut at: usize = 0;
    while at < count
        invariant
            at <= count == sorted@.len(),
            order == views(sorted@),
            parents@.len() == count,
            children@.len() == count,
            views(nodes@) == order.take(at as int),
            forall|k: int| 0 <= k < count ==> index_of(#[trigger] parents@[k]) == parent_of(order, k),
            forall|k: int|
                0 <= k < count ==> indices((#[trigger] children@[k])@) == children_of(
                    order,
                    k,
                    count as int,
                ),
            forall|k: int|
                0 <= k < at ==> index_of((#[trigger] nodes@[k]).parent) == parent_of(order, k)
                    && indices(nodes@[k].children@) == children_of(order, k, count as int),
        decreases count - at,
    {
        let node = &sorted[at];
        let full = NodeSpan {
            start_byte: node.start_byte,
            end_byte: node.end_byte,
            start_line: node.start_line,
            end_line: node.end_line,
            kind: node.kind.clone(),
            children: copy_indices(&children[at]),
            parent: parents[at],
        };
        proof {
            assert(full@ =~= order[at as int]);
            assert(views(nodes@.push(full)) =~= views(nodes@).push(full@));
            assert(order.take(at + 1) =~= order.take(at as int).push(order[at as int]));
        }
        nodes.push(full);
        at = at + 1;
    }
    assert(order.take(at as int) =~= order);
    nodes
}

/// A copy of a list of indices.
fn copy_indices(list: &Vec<usize>) -> (copy: Vec<usize>)
    ensures
        copy@ == list@,
{
    let mut copy: Vec<usize> = Vec::new();
    let mut i: usize = 0;
    while i < list.len()
        invariant
            i <= list@.len(),
            copy@ == list@.take(i as int),
        decreases list@.len() - i,
    {
        copy.push(list[i]);
        i = i + 1;
    }
    assert(list@.take(i as int) =~= list@);
    copy
}

/// Once the nodes that have ended are off the stack, its top is the last open
/// node.
proof fn lemma_stack_top(nodes: Seq<Span>, stack: Seq<usize>, index: int)
    requires
        0 <= index < nodes.len() <= usize::MAX,
        open_stack(nodes, stack, index),
        stack.len() > 0 ==> nodes[stack.last() as int].end > nodes[index].start,
    ensures
        open_before(nodes, index, index) == (if stack.len() > 0 {
            Some(stack.last() as int)
        } else {
            None
        }),
{
    lemma_open_before(nodes, index, index);
    match open_before(nodes, index, index) {
        Some(at) => {
            assert(stack.contains(at as usize));
            let j = choose|j: int| 0 <= j < stack.len() && stack[j] == at as usize;
            let top = stack.last() as int;
            if j < stack.len() - 1 {
                assert(stack[j] < stack[stack.len() - 1]);
                assert(nodes[top].end <= nodes[index].start);
            }
        },
        None => {
            if stack.len() > 0 {
                assert(stack[stack.len() - 1] < index);
                assert(nodes[stack.last() as int].end <= nodes[index].start);
            }
        },
    }
}

// ---------------------------------------------------------------------------
// Cutting nodes into spans
// ---------------------------------------------------------------------------

/// Two lists of spans one behind the other, if there are both.
pub open spec fn both(a: Option<Seq<Span>>, b: Option<Seq<Span>>) -> Option<Seq<Span>> {
    match (a, b) {
        (Some(a), Some(b)) => Some(a + b),
        _ => None,
    }
}

/// The spans of node `index`: the node itself where it is within the limit,
/// else the spans of its children, merged where they fit together, else the
/// spans of its lines. Nothing where lines cannot be cut out of the text.
pub open spec fn node_spans(nodes: Seq<Span>, bytes: Seq<u8>, index: int, max: int) -> Option<
    Seq<Span>,
>
    decreases nodes.len() - index, children_of(nodes, index, nodes.len() as int).len() + 1,
{
    let node = nodes[index];
    let children = children_of(nodes, index, nodes.len() as int);
    if fits(tokens(distance(node.start, node.end)), max) {
        Some(seq![node])
    } else if children.len() == 0 {
        if range_ok(bytes, node.start, node.end) {
            Some(fallback_spans(bytes, node.start, node.end, node.first_line, max, node.kind))
        } else {
            None
        }
    } else {
        match child_spans(nodes, bytes, index, children.len() as int, max) {
            Some(spans) => Some(merged(by_start(spans), max, node.kind)),
            None => None,
        }
    }
}

/// The spans of the first `count` children of node `index`.
pub open spec fn child_spans(
    nodes: Seq<Span>,
    bytes: Seq<u8>,
    index: int,
    count: int,
    max: int,
) -> Option<Seq<Span>>
    decreases nodes.len() - index, count,
{
    let children = children_of(nodes, index, nodes.len() as int);
    if count <= 0 || count > children.len() {
        Some(Seq::empty())
    } else {
        let child = children[count - 1];
        if index < child < nodes.len() {
            both(
                child_spans(nodes, bytes, index, count - 1, max),
                node_spans(nodes, bytes, child, max),
            )
        } else {
            None
        }
    }
}

/// Nothing comes of more children where there is nothing of fewer.
proof fn lemma_child_spans_none(
    nodes: Seq<Span>,
    bytes: Seq<u8>,
    index: int,
    fewer: int,
    count: int,
    max: int,
)
    requires
        0 <= fewer <= count <= children_of(nodes, index, nodes.len() as int).len(),
        child_spans(nodes, bytes, index, fewer, max) is None,
    ensures
        child_spans(nodes, bytes, index, count, max) is None,
    decreases count - fewer,
{
    if fewer < count {
        lemma_child_spans_none(nodes, bytes, index, fewer, count - 1, max);
    }
}

/// Cuts node `node_index` into spans. Gives nothing where lines cannot be cut
/// out of the text.
pub fn chunk_node(node_index: usize, nodes: &Vec<NodeSpan>, source: &str, max_tokens: usize) -> (spans:
    Option<Vec<ChunkSpan>>)
    requires
        node_index < nodes@.len(),
        nested(nodes@),
    ensures
        match spans {
            Some(spans) => node_spans(
                views(nodes@),
                bytes_of(source@),
                node_index as int,
                max_tokens as int,
            ) == Some(spans_of(spans@)),
            None => node_spans(
                views(nodes@),
                bytes_of(source@),
                node_index as int,
                max_tokens as int,
            ) is None,
        },
    decreases nodes@.len() - node_index,
{
    let ghost all = views(nodes@);
    let ghost bytes = bytes_of(source@);
    let node = &nodes[node_index];
    assert(all[node_index as int] == node@);
    let length: usize = node.end_byte.saturating_sub(node.start_byte);
    if fits_limits(estimate_tokens_from_len(length), max_tokens) {
        let span = ChunkSpan {
            start_byte: node.start_byte,
            end_byte: node.end_byte,
            start_line: node.start_line,
            end_line: node.end_line,
            node_kind: node.kind.clone(),
        };
        let mut spans: Vec<ChunkSpan> = Vec::new();
        spans.push(span);
        assert(spans_of(spans@) =~= seq![node@]);
        return Some(spans);
    }
    let ghost children = children_of(all, node_index as int, all.len() as int);
    assert(indices(node.children@) == children);
    if node.children.len() == 0 {
        return fallback_chunk_spans(
            source,
            node.start_byte,
            node.end_byte,
            node.start_line,
            max_tokens,
            node.kind.as_str(),
        );
    }
    let mut spans: Vec<ChunkSpan> = Vec::new();
    let mut i: usize = 0;
    assert(spans_of(spans@) =~= Seq::<Span>::empty());
    while i < node.children.len()
        invariant
            i <= node.children@.len(),
            node_index < nodes@.len(),
            nested(nodes@),
            *node == nodes@[node_index as int],
            all == views(nodes@),
            bytes == bytes_of(source@),
            children == children_of(all, node_index as int, all.len() as int),
            indices(node.children@) == children,
            children.len() > 0,
            !fits(tokens(distance(node@.start, node@.end)), max_tokens as int),
            child_spans(all, bytes, node_index as int, i as int, max_tokens as int) == Some(
                spans_of(spans@),
            ),
        decreases node.children@.len() - i,
    {
        let child: usize = node.children[i];
        proof {
            lemma_children(all, node_index as int, all.len() as int);
            assert(indices(node.children@)[i as int] == child);
            assert(children[i as int] == child);
        }
        match chunk_node(child, nodes, source, max_tokens) {
            Some(more) => {
                let mut more = more;
                let ghost before = spans@;
                let ghost added = more@;
                spans.append(&mut more);
                assert(spans_of(spans@) =~= spans_of(before) + spans_of(added));
            },
            None => {
                proof {
                    lemma_child_spans_none(
                        all,
                        bytes,
                        node_index as int,
                        i + 1,
                        children.len() as int,
                        max_tokens as int,
                    );
                }
                return None;
            },
        }
        i = i + 1;
    }
    let sorted = sort_items(spans, false);
    Some(merge_spans(sorted, max_tokens, node.kind.as_str()))
}

/// The spans of the nodes before `before` that lie in no other node.
pub open spec fn root_spans(nodes: Seq<Span>, bytes: Seq<u8>, before: int, max: int) -> Option<
    Seq<Span>,
>
    decreases before,
{
    if before <= 0 {
        Some(Seq::empty())
    } else {
        let init = root_spans(nodes, bytes, before - 1, max);
        if parent_of(nodes, before - 1) is None {
            both(init, node_spans(nodes, bytes, before - 1, max))
        } else {
            init
        }
    }
}

/// The spans of all nodes: none lies inside another, and they stand in the
/// order in which they start.
pub open spec fn structural_spans(nodes: Seq<Span>, bytes: Seq<u8>, max: int) -> Option<Seq<Span>> {
    match root_spans(nodes, bytes, nodes.len() as int, max) {
        Some(spans) => Some(pruned(by_start(spans))),
        None => None,
    }
}

/// Nothing comes of more nodes where there is nothing of fewer.
proof fn lemma_root_spans_none(nodes: Seq<Span>, bytes: Seq<u8>, fewer: int, before: int, max: int)
    requires
        0 <= fewer <= before,
        root_spans(nodes, bytes, fewer, max) is None,
    ensures
        root_spans(nodes, bytes, before, max) is None,
    decreases before - fewer,
{
    if fewer < before {
        lemma_root_spans_none(nodes, bytes, fewer, before - 1, max);
    }
}

/// Cuts all nodes into spans. Gives nothing where lines cannot be cut out of
/// the text.
pub fn chunk_nodes(nodes: &Vec<NodeSpan>, source: &str, max_tokens: usize) -> (spans: Option<
    Vec<ChunkSpan>,
>)
    requires
        nested(nodes@),
    ensures
        match spans {
            Some(spans) => structural_spans(views(nodes@), bytes_of(source@), max_tokens as int)
                == Some(spans_of(spans@)),
            None => structural_spans(
                views(nodes@),
                bytes_of(source@),
                max_tokens as int,
            ) is None,
        },
{
    let ghost all = views(nodes@);
    let ghost bytes = bytes_of(source@);
    let mut spans: Vec<ChunkSpan> = Vec::new();
    let mut i: usize = 0;
    assert(spans_of(spans@) =~= Seq::<Span>::empty());
    while i < nodes.len()
        invariant
            i <= nodes@.len(),
            nested(nodes@),
            all == views(nodes@),
            bytes == bytes_of(source@),
            root_spans(all, bytes, i as int, max_tokens as int) == Some(spans_of(spans@)),
        decreases nodes@.len() - i,
    {
        assert(index_of(nodes@[i as int].parent) == parent_of(all, i as int));
        if nodes[i].parent.is_none() {
            match chunk_node(i, nodes, source, max_tokens) {
                Some(more) => {
                    let mut more = more;
                    let ghost before = spans@;
                    let ghost added = more@;
                    spans.append(&mut more);
                    assert(spans_of(spans@) =~= spans_of(before) + spans_of(added));
                },
                None => {
                    proof {
                        lemma_root_spans_none(
                            all,
                            bytes,
                            i + 1,
                            all.len() as int,
                            max_tokens as int,
                        );
                    }
                    return None;
                },
            }
        }
        i = i + 1;
    }
    let sorted = sort_items(spans, false);
    Some(prune_contained_spans(sorted))
}

} // verus!
