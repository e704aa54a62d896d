//! What the library reads of a Tree-sitter syntax tree, as plain values.
use crate::nodes::{Capture, CaptureView};
use crate::sorting::views;
use tree_sitter::StreamingIterator;
use vstd::prelude::*;

verus! {

/// A syntax tree of Tree-sitter.
#[verifier::external_type_specification]
#[verifier::external_body]
pub struct ExTree(tree_sitter::Tree);

/// A compiled query of Tree-sitter.
#[verifier::external_type_specification]
#[verifier::external_body]
pub struct ExQuery(tree_sitter::Query);

/// A grammar of Tree-sitter.
#[verifier::external_type_specification]
#[verifier::external_body]
pub struct ExLanguage(tree_sitter::Language);

/// A parser of Tree-sitter.
#[verifier::external_type_specification]
#[verifier::external_body]
pub struct ExParser(tree_sitter::Parser);

/// A node of a syntax tree of Tree-sitter.
#[verifier::external_type_specification]
#[verifier::external_body]
pub struct ExNode<'tree>(tree_sitter::Node<'tree>);

/// A child of a syntax node: its kind and its bytes.
#[derive(Clone, Debug)]
pub struct SyntaxChild {
    pub kind: String,
    pub start_byte: usize,
    pub end_byte: usize,
}

/// A syntax node: its kind, its bytes, its children, and the child in the one
/// field that was asked for.
#[derive(Clone, Debug)]
pub struct SyntaxNode {
    pub kind: String,
    pub start_byte: usize,
    pub end_byte: usize,
    pub field: Option<SyntaxChild>,
    pub children: Vec<SyntaxChild>,
}

/// A child of a syntax node as a mathematical value.
#[verifier::ext_equal]
pub struct ChildView {
    pub kind: Seq<char>,
    pub start: int,
    pub end: int,
}

/// A syntax node as a mathematical value.
#[verifier::ext_equal]
pub struct SyntaxView {
    pub kind: Seq<char>,
    pub start: int,
    pub end: int,
    pub field: Option<ChildView>,
    pub children: Seq<ChildView>,
}

impl View for SyntaxChild {
    type V = ChildView;

    open spec fn view(&self) -> ChildView {
        ChildView { kind: self.kind@, start: self.start_byte as int, end: self.end_byte as int }
    }
}

impl View for SyntaxNode {
    type V = SyntaxView;

    open spec fn view(&self) -> SyntaxView {
        SyntaxView {
            kind: self.kind@,
            start: self.start_byte as int,
            end: self.end_byte as int,
            field: match self.field {
                Some(child) => Some(child@),
                None => None,
            },
            children: views(self.children@),
        }
    }
}

/// The chain of nodes as a mathematical value, if there is one.
pub open spec fn chain_view(chain: Option<Vec<SyntaxNode>>) -> Option<Seq<SyntaxView>> {
    match chain {
        Some(chain) => Some(views(chain@)),
        None => None,
    }
}

/// The text that a tree was parsed from.
pub uninterp spec fn parsed_from(tree: tree_sitter::Tree) -> Seq<char>;

/// The grammar that a parser uses, if it has one.
pub uninterp spec fn parser_language(parser: tree_sitter::Parser) -> Option<tree_sitter::Language>;

/// Whether a parser reads the whole of a text: it was not told to keep to some
/// ranges of it, and it left no parse unfinished.
pub uninterp spec fn reads_whole(parser: tree_sitter::Parser) -> bool;

/// Whether `tree_sitter::Parser::set_language` takes a grammar.
pub uninterp spec fn language_fits(language: tree_sitter::Language) -> bool;

/// The tree that `tree_sitter::Parser::parse` makes of a text.
pub uninterp spec fn tree_of(language: tree_sitter::Language, source: Seq<char>) -> tree_sitter::Tree;

/// The query that `tree_sitter::Query::new` reads.
pub uninterp spec fn query_of(
    language: tree_sitter::Language,
    source: Seq<char>,
) -> tree_sitter::Query;

/// What `tree_sitter::Query::new` finds wrong with a query, if anything.
pub uninterp spec fn query_fault(
    language: tree_sitter::Language,
    source: Seq<char>,
) -> Option<Seq<char>>;

/// `tree_sitter::Parser::new` makes a parser without a grammar, which reads the
/// whole of a text.
#[verifier::external_body]
pub(crate) fn new_parser() -> (parser: tree_sitter::Parser)
    ensures
        parser_language(parser) is None,
        reads_whole(parser),
{
    tree_sitter::Parser::new()
}

/// `tree_sitter::Parser::set_language` gives a parser a grammar, unless its
/// version does not fit, which is a matter of the grammar alone. The parser
/// keeps the grammar that it had where it does not. It sets no ranges and starts
/// no parse.
#[verifier::external_body]
pub(crate) fn set_language(
    parser: &mut tree_sitter::Parser,
    language: &tree_sitter::Language,
) -> (done: bool)
    ensures
        done == language_fits(*language),
        parser_language(*final(parser)) == if language_fits(*language) {
            Some(*language)
        } else {
            parser_language(*old(parser))
        },
        reads_whole(*old(parser)) ==> reads_whole(*final(parser)),
{
    parser.set_language(language).is_ok()
}

/// `tree_sitter::Parser::parse` parses a text from scratch. It fails where the
/// parser has no grammar; where it has one and reads the whole text, the tree is
/// a function of the grammar and the text. The parser keeps its grammar and leaves
/// nothing unfinished. What a parser makes of a text that it does not read whole
/// is left open.
#[verifier::external_body]
pub(crate) fn parse_text(parser: &mut tree_sitter::Parser, source: &str) -> (tree: Option<
    tree_sitter::Tree,
>)
    ensures
        match (parser_language(*old(parser)), tree) {
            (Some(language), Some(tree)) => reads_whole(*old(parser)) ==> tree == tree_of(
                language,
                source@,
            ) && parsed_from(tree) == source@,
            (Some(_), None) => !reads_whole(*old(parser)),
            (None, tree) => tree is None,
        },
        parser_language(*final(parser)) == parser_language(*old(parser)),
        reads_whole(*old(parser)) ==> reads_whole(*final(parser)),
{
    parser.parse(source, None)
}

/// `tree_sitter::Query::new` reads a query for a grammar. Whether it can, and
/// what it says where it cannot, is a function of the grammar and the text.
#[verifier::external_body]
pub(crate) fn read_query(language: &tree_sitter::Language, source: &str) -> (query: Result<
    tree_sitter::Query,
    String,
>)
    ensures
        match query {
            Ok(query) => query_fault(*language, source@) is None && query == query_of(
                *language,
                source@,
            ),
            Err(message) => query_fault(*language, source@) == Some(message@),
        },
{
    tree_sitter::Query::new(language, source).map_err(|err| err.to_string())
}

/// What a query captures in a syntax tree of a source text, in the order in
/// which `tree_sitter::QueryCursor::captures` gives it.
pub uninterp spec fn captures_of(
    source: Seq<char>,
    tree: tree_sitter::Tree,
    query: tree_sitter::Query,
) -> Seq<CaptureView>;

/// `tree_sitter::QueryCursor::captures` runs a query over a whole tree. The
/// captures are a function of the text, the tree and the query; each is given
/// as plain values. The text has to be the one that the tree was parsed from: a
/// query that compares texts reads the bytes of nodes from it.
#[verifier::external_body]
pub(crate) fn query_captures(
    source: &str,
    tree: &tree_sitter::Tree,
    query: &tree_sitter::Query,
) -> (captures: Vec<Capture>)
    requires
        parsed_from(*tree) == source@,
    ensures
        views(captures@) == captures_of(source@, *tree, *query),
{
    let mut cursor = tree_sitter::QueryCursor::new();
    let mut found = cursor.captures(query, tree.root_node(), source.as_bytes());
    let mut captures = Vec::new();
    while let Some((group, index)) = found.next() {
        let capture = &group.captures[*index];
        captures.push(Capture {
            name: query.capture_names()[capture.index as usize].to_string(),
            kind: capture.node.kind().to_string(),
            start_byte: capture.node.start_byte(),
            end_byte: capture.node.end_byte(),
            start_row: capture.node.start_position().row,
            end_row: capture.node.end_position().row,
        });
    }
    captures
}

// ---------------------------------------------------------------------------
// Nodes
// ---------------------------------------------------------------------------

/// The node that `tree_sitter::Tree::root_node` gives.
pub uninterp spec fn root_of(tree: &tree_sitter::Tree) -> tree_sitter::Node;

/// The node that `tree_sitter::Node::descendant_for_byte_range` finds.
pub uninterp spec fn smallest_at(node: tree_sitter::Node, start: int, end: int) -> Option<
    tree_sitter::Node,
>;

/// The node that `tree_sitter::Node::parent` gives.
pub uninterp spec fn parent_of(node: tree_sitter::Node) -> Option<tree_sitter::Node>;

/// The number that `tree_sitter::Node::descendant_count` gives.
pub uninterp spec fn descendants_of(node: tree_sitter::Node) -> usize;

/// The text that `tree_sitter::Node::kind` gives.
pub uninterp spec fn kind_of(node: tree_sitter::Node) -> Seq<char>;

/// The number that `tree_sitter::Node::start_byte` gives.
pub uninterp spec fn start_of(node: tree_sitter::Node) -> usize;

/// The number that `tree_sitter::Node::end_byte` gives.
pub uninterp spec fn end_of(node: tree_sitter::Node) -> usize;

/// The node that `tree_sitter::Node::child_by_field_name` gives.
pub uninterp spec fn child_in(node: tree_sitter::Node, field: Seq<char>) -> Option<
    tree_sitter::Node,
>;

/// The nodes that `tree_sitter::Node::children` gives, in their order.
pub uninterp spec fn children_of(node: tree_sitter::Node) -> Seq<tree_sitter::Node>;

/// `tree_sitter::Tree::root_node` gives the root of a tree, which is a function
/// of the tree.
#[verifier::external_body]
pub(crate) fn root_node(tree: &tree_sitter::Tree) -> (root: tree_sitter::Node<'_>)
    ensures
        root == root_of(tree),
{
    tree.root_node()
}

/// `tree_sitter::Node::descendant_for_byte_range` finds the smallest node within
/// a node that spans the bytes from `start` to `end`. What it finds is a function
/// of the node and the range.
#[verifier::external_body]
pub(crate) fn find_smallest<'tree>(node: &tree_sitter::Node<'tree>, start: usize, end: usize) -> (found:
    Option<tree_sitter::Node<'tree>>)
    ensures
        found == smallest_at(*node, start as int, end as int),
{
    node.descendant_for_byte_range(start, end)
}

/// `tree_sitter::Node::parent` gives the parent of a node, if it has one. It is
/// a function of the node.
#[verifier::external_body]
pub(crate) fn find_parent<'tree>(node: &tree_sitter::Node<'tree>) -> (parent: Option<
    tree_sitter::Node<'tree>,
>)
    ensures
        parent == parent_of(*node),
{
    node.parent()
}

/// `tree_sitter::Node::descendant_count` tells how many descendants a node has,
/// with one for the node itself. The number is a function of the node.
#[verifier::external_body]
pub(crate) fn count_descendants(node: &tree_sitter::Node<'_>) -> (count: usize)
    ensures
        count == descendants_of(*node),
{
    node.descendant_count()
}

/// `tree_sitter::Node::kind` names the kind of a node, which is a function of the
/// node.
#[verifier::external_body]
pub(crate) fn node_kind(node: &tree_sitter::Node<'_>) -> (kind: String)
    ensures
        kind@ == kind_of(*node),
{
    node.kind().to_string()
}

/// `tree_sitter::Node::start_byte` tells where a node starts, which is a function
/// of the node.
#[verifier::external_body]
pub(crate) fn node_start(node: &tree_sitter::Node<'_>) -> (start: usize)
    ensures
        start == start_of(*node),
{
    node.start_byte()
}

/// `tree_sitter::Node::end_byte` tells where a node ends, which is a function of
/// the node.
#[verifier::external_body]
pub(crate) fn node_end(node: &tree_sitter::Node<'_>) -> (end: usize)
    ensures
        end == end_of(*node),
{
    node.end_byte()
}

/// `tree_sitter::Node::child_by_field_name` gives the first child in a field, if
/// there is one. It is a function of the node and the name of the field.
#[verifier::external_body]
pub(crate) fn find_child<'tree>(node: &tree_sitter::Node<'tree>, field: &str) -> (child: Option<
    tree_sitter::Node<'tree>,
>)
    ensures
        child == child_in(*node, field@),
{
    node.child_by_field_name(field)
}

/// `tree_sitter::Node::children` gives the children of a node in their order,
/// which are a function of the node.
#[verifier::external_body]
pub(crate) fn list_children<'tree>(node: &tree_sitter::Node<'tree>) -> (children: Vec<
    tree_sitter::Node<'tree>,
>)
    ensures
        children@ == children_of(*node),
{
    node.children(&mut node.walk()).collect()
}

/// A node as plain values.
pub open spec fn plain(node: tree_sitter::Node) -> ChildView {
    ChildView { kind: kind_of(node), start: start_of(node) as int, end: end_of(node) as int }
}

/// A node with its children and the child in a field, as plain values.
pub open spec fn plain_with(node: tree_sitter::Node, field: Seq<char>) -> SyntaxView {
    SyntaxView {
        kind: kind_of(node),
        start: start_of(node) as int,
        end: end_of(node) as int,
        field: match child_in(node, field) {
            Some(child) => Some(plain(child)),
            None => None,
        },
        children: Seq::new(
            children_of(node).len(),
            |i: int| plain(children_of(node)[i]),
        ),
    }
}

/// The node above a node, which has more descendants.
pub open spec fn above(node: tree_sitter::Node) -> Option<tree_sitter::Node> {
    match parent_of(node) {
        Some(parent) => if descendants_of(node) < descendants_of(parent) {
            Some(parent)
        } else {
            None
        },
        None => None,
    }
}

/// A node, followed by the nodes above it up to the root. Each comes with the
/// child in the field `field`.
pub open spec fn lineage(node: tree_sitter::Node, field: Seq<char>) -> Seq<SyntaxView>
    decreases usize::MAX - descendants_of(node),
{
    Seq::empty().push(plain_with(node, field)) + match above(node) {
        Some(parent) => lineage(parent, field),
        None => Seq::empty(),
    }
}

/// The smallest node of a tree that spans the bytes from `start` to `end`,
/// followed by the nodes above it up to the root. Each comes with the child in
/// the field `field`.
pub open spec fn chain_of(tree: tree_sitter::Tree, start: int, end: int, field: Seq<char>) -> Option<
    Seq<SyntaxView>,
> {
    match smallest_at(root_of(&tree), start, end) {
        Some(node) => Some(lineage(node, field)),
        None => None,
    }
}

/// Reads a node.
fn read_plain(node: &tree_sitter::Node<'_>) -> (out: SyntaxChild)
    ensures
        out@ == plain(*node),
{
    SyntaxChild { kind: node_kind(node), start_byte: node_start(node), end_byte: node_end(node) }
}

/// Reads a node with its children and the child in a field.
fn read_node(node: &tree_sitter::Node<'_>, field: &str) -> (out: SyntaxNode)
    ensures
        out@ == plain_with(*node, field@),
{
    let found = find_child(node, field);
    let child: Option<SyntaxChild> = match &found {
        Some(child) => Some(read_plain(child)),
        None => None,
    };
    let nodes = list_children(node);
    let mut children: Vec<SyntaxChild> = Vec::new();
    let mut i: usize = 0;
    while i < nodes.len()
        invariant
            i <= nodes@.len(),
            children@.len() == i,
            forall|k: int| 0 <= k < i ==> (#[trigger] children@[k])@ == plain(nodes@[k]),
        decreases nodes@.len() - i,
    {
        children.push(read_plain(&nodes[i]));
        i = i + 1;
    }
    let out = SyntaxNode {
        kind: node_kind(node),
        start_byte: node_start(node),
        end_byte: node_end(node),
        field: child,
        children,
    };
    assert(out@.children =~= plain_with(*node, field@).children);
    out
}

/// Finds the node above a node.
fn find_above<'tree>(node: &tree_sitter::Node<'tree>) -> (out: Option<tree_sitter::Node<'tree>>)
    ensures
        out == above(*node),
{
    match find_parent(node) {
        Some(parent) => if count_descendants(node) < count_descendants(&parent) {
            Some(parent)
        } else {
            None
        },
        None => None,
    }
}

/// The smallest node of a tree that spans the bytes from `start` to `end`, and
/// the nodes above it up to the root.
pub fn enclosing_nodes(tree: &tree_sitter::Tree, start: usize, end: usize, field: &str) -> (chain:
    Option<Vec<SyntaxNode>>)
    ensures
        chain_view(chain) == chain_of(*tree, start as int, end as int, field@),
{
    let root = root_node(tree);
    let mut node = match find_smallest(&root, start, end) {
        Some(node) => node,
        None => {
            return None;
        },
    };
    let ghost whole = lineage(node, field@);
    let mut chain: Vec<SyntaxNode> = Vec::new();
    assert(views(chain@) =~= Seq::<SyntaxView>::empty());
    assert(Seq::<SyntaxView>::empty() + whole =~= whole);
    loop
        invariant
            chain_of(*tree, start as int, end as int, field@) == Some(whole),
            views(chain@) + lineage(node, field@) == whole,
        decreases usize::MAX - descendants_of(node),
    {
        let ghost before = views(chain@);
        chain.push(read_node(&node, field));
        assert(views(chain@) =~= before.push(plain_with(node, field@)));
        match find_above(&node) {
            Some(parent) => {
                assert(views(chain@) + lineage(parent, field@) =~= whole);
                node = parent;
            },
            None => {
                assert(views(chain@) =~= whole);
                return Some(chain);
            },
        }
    }
}

} // verus!
