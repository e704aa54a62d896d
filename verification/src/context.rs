//! The context path of a span: the elements of an XML document, or the keys and
//! positions of a JSON document, that lead to it.
use crate::lines::{bytes_of, can_slice, cut_out, range_ok, slice_source};
use crate::spans::{ChunkSpan, Span};
use crate::syntax::{
    chain_of, chain_view, enclosing_nodes, ChildView, SyntaxChild, SyntaxNode, SyntaxView,
};
use crate::sorting::views;
use crate::text::{
    chars_of, decimal, join_texts, joined, push_decimal, same_text, text_between, texts, trim,
    trimmed,
};
use vstd::prelude::*;
use vstd::utf8::*;

verus! {

/// The text of a node; nothing where it cannot be cut out of the source.
pub open spec fn text_at(bytes: Seq<u8>, start: int, end: int) -> Option<Seq<char>> {
    if range_ok(bytes, start, end) {
        Some(decode_utf8(cut_out(bytes, start, end)))
    } else {
        None
    }
}

/// The text of a node; nothing where it cannot be cut out of the source.
pub fn node_text(node: &SyntaxChild, source: &str) -> (text: Option<String>)
    ensures
        match text {
            Some(text) => text_at(bytes_of(source@), node@.start, node@.end) == Some(text@),
            None => text_at(bytes_of(source@), node@.start, node@.end) is None,
        },
{
    if can_slice(source, node.start_byte, node.end_byte) {
        Some(slice_source(source, node.start_byte, node.end_byte))
    } else {
        None
    }
}

// ---------------------------------------------------------------------------
// The node to start from
// ---------------------------------------------------------------------------

/// Whether a node holds all bytes from `start` to `end`.
pub open spec fn covers(node: SyntaxView, start: int, end: int) -> bool {
    node.start <= start && node.end >= end
}

/// The first node of the chain, from `at` on, that holds all bytes from `start`
/// to `end`; the last one where none does.
pub open spec fn covering(chain: Seq<SyntaxView>, start: int, end: int, at: int) -> int
    decreases chain.len() - at,
{
    if at + 1 >= chain.len() || covers(chain[at], start, end) {
        at
    } else {
        covering(chain, start, end, at + 1)
    }
}

/// The position of the node of the chain that the path starts from.
fn find_covering(chain: &Vec<SyntaxNode>, start: usize, end: usize) -> (at: usize)
    requires
        chain@.len() > 0,
    ensures
        at < chain@.len(),
        at == covering(views(chain@), start as int, end as int, 0),
{
    let ghost all = views(chain@);
    let mut at: usize = 0;
    while at < chain.len() - 1 && (chain[at].start_byte > start || chain[at].end_byte < end)
        invariant
            at < chain@.len(),
            all == views(chain@),
            covering(all, start as int, end as int, 0) == covering(
                all,
                start as int,
                end as int,
                at as int,
            ),
        decreases chain@.len() - at,
    {
        assert(all[at as int] == chain@[at as int]@);
        at = at + 1;
    }
    assert(all[at as int] == chain@[at as int]@);
    at
}

/// Two lists of names one behind the other, if there are both.
pub open spec fn both_names(a: Option<Seq<Seq<char>>>, b: Option<Seq<Seq<char>>>) -> Option<
    Seq<Seq<char>>,
> {
    match (a, b) {
        (Some(a), Some(b)) => Some(a + b),
        _ => None,
    }
}

/// The path that some names make up, if there are any.
pub open spec fn path_of(names: Option<Seq<Seq<char>>>, separator: Seq<char>) -> Option<
    Option<Seq<char>>,
> {
    match names {
        Some(names) => if names.len() == 0 {
            Some(None)
        } else {
            Some(Some(joined(names, separator)))
        },
        None => None,
    }
}

/// A path as a mathematical value.
pub open spec fn path_view(path: Option<Option<String>>) -> Option<Option<Seq<char>>> {
    match path {
        Some(Some(path)) => Some(Some(path@)),
        Some(None) => Some(None),
        None => None,
    }
}

/// Joins names to a path, if there are any.
fn make_path(names: Option<Vec<String>>, separator: &str) -> (path: Option<Option<String>>)
    ensures
        path_view(path) == path_of(
            match names {
                Some(names) => Some(texts(names@)),
                None => None,
            },
            separator@,
        ),
{
    match names {
        Some(names) => if names.len() == 0 {
            Some(None)
        } else {
            Some(Some(join_texts(&names, separator)))
        },
        None => None,
    }
}

// ---------------------------------------------------------------------------
// XML
// ---------------------------------------------------------------------------

/// The kinds of nodes that stand for an element.
pub open spec fn xml_element(kind: Seq<char>) -> bool {
    kind == "element"@ || kind == "empty_element"@ || kind == "start_tag"@
}

/// Whether a kind of node stands for an element.
pub fn is_xml_element(kind: &str) -> (is: bool)
    ensures
        is == xml_element(kind@),
{
    same_text(kind, "element") || same_text(kind, "empty_element") || same_text(kind, "start_tag")
}

/// The kinds of nodes that hold the name of an element.
pub open spec fn xml_name(kind: Seq<char>) -> bool {
    kind == "name"@ || kind == "tag_name"@ || kind == "qualified_name"@
}

/// The first of the children that holds a name.
pub open spec fn first_xml_name(children: Seq<ChildView>) -> Option<ChildView>
    decreases children.len(),
{
    if children.len() == 0 {
        None
    } else if xml_name(children[0].kind) {
        Some(children[0])
    } else {
        first_xml_name(children.drop_first())
    }
}

/// The child that holds the name of an element: the one in the field, else the
/// first of a fitting kind.
pub open spec fn xml_label(node: SyntaxView) -> Option<ChildView> {
    match node.field {
        Some(child) => Some(child),
        None => first_xml_name(node.children),
    }
}

/// The name that a node adds to the path, if it is an element with a name.
pub open spec fn xml_step(node: SyntaxView, bytes: Seq<u8>) -> Option<Seq<Seq<char>>> {
    if !xml_element(node.kind) {
        Some(Seq::empty())
    } else {
        match xml_label(node) {
            Some(child) => match text_at(bytes, child.start, child.end) {
                Some(name) => Some(seq![name]),
                None => None,
            },
            None => Some(Seq::empty()),
        }
    }
}

/// The names of the elements from the outermost one down to node `at`.
pub open spec fn xml_names(chain: Seq<SyntaxView>, bytes: Seq<u8>, at: int) -> Option<
    Seq<Seq<char>>,
>
    decreases chain.len() - at,
{
    if at >= chain.len() {
        Some(Seq::empty())
    } else {
        both_names(xml_names(chain, bytes, at + 1), xml_step(chain[at], bytes))
    }
}

/// The names of the elements around the bytes from `start` to `end`, outermost
/// first, with slashes between them. The inner nothing is a span without
/// elements around it, the outer one a name that cannot be cut out.
pub open spec fn xml_path(
    chain: Option<Seq<SyntaxView>>,
    bytes: Seq<u8>,
    start: int,
    end: int,
) -> Option<Option<Seq<char>>> {
    match chain {
        Some(chain) => if chain.len() == 0 {
            Some(None)
        } else {
            path_of(xml_names(chain, bytes, covering(chain, start, end, 0)), "/"@)
        },
        None => Some(None),
    }
}

/// The name of an element, if it has one; nothing where the name cannot be cut
/// out of the source.
pub fn xml_element_name(node: &SyntaxNode, source: &str) -> (name: Option<Option<String>>)
    ensures
        path_view(name) == (match xml_label(node@) {
            Some(child) => match text_at(bytes_of(source@), child.start, child.end) {
                Some(name) => Some(Some(name)),
                None => None,
            },
            None => Some(None),
        }),
{
    match &node.field {
        Some(child) => {
            return match node_text(child, source) {
                Some(name) => Some(Some(name)),
                None => None,
            };
        },
        None => {},
    }
    let ghost all = views(node.children@);
    let mut i: usize = 0;
    assert(all.skip(0) =~= all);
    while i < node.children.len()
        invariant
            i <= node.children@.len(),
            all == views(node.children@),
            node.field is None,
            first_xml_name(all) == first_xml_name(all.skip(i as int)),
        decreases node.children@.len() - i,
    {
        let child = &node.children[i];
        assert(all.skip(i as int)[0] == child@);
        assert(all.skip(i as int).drop_first() =~= all.skip(i + 1));
        if same_text(child.kind.as_str(), "name") || same_text(child.kind.as_str(), "tag_name")
            || same_text(child.kind.as_str(), "qualified_name") {
            return match node_text(child, source) {
                Some(name) => Some(Some(name)),
                None => None,
            };
        }
        i = i + 1;
    }
    Some(None)
}

/// Nothing comes of more names where there is nothing of fewer.
proof fn lemma_xml_names_none(chain: Seq<SyntaxView>, bytes: Seq<u8>, at: int, inner: int)
    requires
        inner <= at,
        xml_names(chain, bytes, at) is None,
    ensures
        xml_names(chain, bytes, inner) is None,
    decreases at - inner,
{
    if inner < at {
        lemma_xml_names_none(chain, bytes, at, inner + 1);
    }
}

/// The path to the bytes of a span through the elements of `chain`.
pub fn xml_path_through(chain: &Option<Vec<SyntaxNode>>, source: &str, span: &ChunkSpan) -> (path:
    Option<Option<String>>)
    ensures
        path_view(path) == xml_path(
            chain_view(*chain),
            bytes_of(source@),
            span@.start,
            span@.end,
        ),
{
    match chain {
        None => Some(None),
        Some(nodes) => {
            if nodes.len() == 0 {
                return Some(None);
            }
            let ghost all = views(nodes@);
            let ghost bytes = bytes_of(source@);
            let inner: usize = find_covering(nodes, span.start_byte, span.end_byte);
            let mut names: Vec<String> = Vec::new();
            let mut at: usize = nodes.len();
            assert(texts(names@) =~= Seq::<Seq<char>>::empty());
            while at > inner
                invariant
                    inner <= at <= nodes@.len(),
                    all == views(nodes@),
                    chain_view(*chain) == Some(all),
                    bytes == bytes_of(source@),
                    inner == covering(all, span@.start, span@.end, 0),
                    nodes@.len() > 0,
                    xml_names(all, bytes, at as int) == Some(texts(names@)),
                decreases at,
            {
                at = at - 1;
                let node = &nodes[at];
                assert(all[at as int] == node@);
                let ghost before = texts(names@);
                if is_xml_element(node.kind.as_str()) {
                    match xml_element_name(node, source) {
                        Some(Some(name)) => {
                            names.push(name);
                            assert(texts(names@) =~= before + seq![name@]);
                        },
                        Some(None) => {
                            assert(before + Seq::<Seq<char>>::empty() =~= before);
                        },
                        None => {
                            proof {
                                lemma_xml_names_none(all, bytes, at as int, inner as int);
                            }
                            return None;
                        },
                    }
                } else {
                    assert(before + Seq::<Seq<char>>::empty() =~= before);
                }
            }
            make_path(Some(names), "/")
        },
    }
}

/// The names of the XML elements around a span, if there are any; nothing where
/// a name cannot be cut out of the source.
pub fn compute_xml_path(tree: &tree_sitter::Tree, source: &str, span: &ChunkSpan) -> (path: Option<
    Option<String>,
>)
    ensures
        path_view(path) == xml_path(
            chain_of(*tree, span@.start, span@.end, "name"@),
            bytes_of(source@),
            span@.start,
            span@.end,
        ),
{
    let chain = enclosing_nodes(tree, span.start_byte, span.end_byte, "name");
    xml_path_through(&chain, source, span)
}

// ---------------------------------------------------------------------------
// JSON
// ---------------------------------------------------------------------------

/// The kinds of nodes that stand for a value.
pub open spec fn json_value(kind: Seq<char>) -> bool {
    ||| kind == "object"@
    ||| kind == "array"@
    ||| kind == "string"@
    ||| kind == "number"@
    ||| kind == "true"@
    ||| kind == "false"@
    ||| kind == "null"@
}

/// Whether a kind of node stands for a value.
pub fn is_json_value(kind: &str) -> (is: bool)
    ensures
        is == json_value(kind@),
{
    same_text(kind, "object") || same_text(kind, "array") || same_text(kind, "string") || same_text(
        kind,
        "number",
    ) || same_text(kind, "true") || same_text(kind, "false") || same_text(kind, "null")
}

/// A text without the white space around it, and then without the quotation
/// marks around it.
pub open spec fn unquoted(text: Seq<char>) -> Seq<char> {
    let inner = trimmed(text);
    if inner.len() >= 2 && inner[0] == '"' && inner.last() == '"' {
        inner.subrange(1, inner.len() - 1)
    } else {
        inner
    }
}

/// Removes the white space around `value`, and then the quotation marks.
pub fn trim_json_string(value: &str) -> (out: String)
    ensures
        out@ == unquoted(value@),
{
    let inner = trim(value);
    let chars = chars_of(inner.as_str());
    let len: usize = chars.len();
    if len >= 2 && chars[0] == '"' && chars[len - 1] == '"' {
        text_between(&chars, 1, len - 1)
    } else {
        inner
    }
}

/// The first string among the children.
pub open spec fn first_json_string(children: Seq<ChildView>) -> Option<ChildView>
    decreases children.len(),
{
    if children.len() == 0 {
        None
    } else if children[0].kind == "string"@ {
        Some(children[0])
    } else {
        first_json_string(children.drop_first())
    }
}

/// The child that holds the key of a pair: the one in the field, else the first
/// string.
pub open spec fn json_label(node: SyntaxView) -> Option<ChildView> {
    match node.field {
        Some(child) => Some(child),
        None => first_json_string(node.children),
    }
}

/// The place, among the values in `children`, of the one that lies on the bytes
/// from `start` to `end`.
pub open spec fn array_index(children: Seq<ChildView>, start: int, end: int) -> Option<int>
    decreases children.len(),
{
    if children.len() == 0 {
        None
    } else {
        let first = children[0];
        if json_value(first.kind) && first.start == start && first.end == end {
            Some(0)
        } else {
            match array_index(children.drop_first(), start, end) {
                Some(index) => Some(
                    index + if json_value(first.kind) {
                        1int
                    } else {
                        0
                    },
                ),
                None => None,
            }
        }
    }
}

/// What node `at` adds to a path that starts at node `from`: the key of a pair,
/// or the place in an array of the node below it.
pub open spec fn json_step(chain: Seq<SyntaxView>, bytes: Seq<u8>, from: int, at: int) -> Option<
    Seq<Seq<char>>,
> {
    let node = chain[at];
    if node.kind == "pair"@ {
        match json_label(node) {
            Some(child) => match text_at(bytes, child.start, child.end) {
                Some(key) => Some(seq![unquoted(key)]),
                None => None,
            },
            None => Some(Seq::empty()),
        }
    } else if node.kind == "array"@ && at > from {
        match array_index(node.children, chain[at - 1].start, chain[at - 1].end) {
            Some(index) => Some(seq!["["@ + decimal(index as nat) + "]"@]),
            None => Some(Seq::empty()),
        }
    } else {
        Some(Seq::empty())
    }
}

/// The keys and places from the outermost one down to node `at`, of a path that
/// starts at node `from`.
pub open spec fn json_names(chain: Seq<SyntaxView>, bytes: Seq<u8>, from: int, at: int) -> Option<
    Seq<Seq<char>>,
>
    decreases chain.len() - at,
{
    if at >= chain.len() {
        Some(Seq::empty())
    } else {
        both_names(json_names(chain, bytes, from, at + 1), json_step(chain, bytes, from, at))
    }
}

/// The keys and places that lead to the bytes from `start` to `end`, outermost
/// first, with dots between them. The inner nothing is a span at the top, the
/// outer one a key that cannot be cut out.
pub open spec fn json_path(
    chain: Option<Seq<SyntaxView>>,
    bytes: Seq<u8>,
    start: int,
    end: int,
) -> Option<Option<Seq<char>>> {
    match chain {
        Some(chain) => if chain.len() == 0 {
            Some(None)
        } else {
            let from = covering(chain, start, end, 0);
            path_of(json_names(chain, bytes, from, from), "."@)
        },
        None => Some(None),
    }
}

/// The key of a pair, if it has one; nothing where the key cannot be cut out of
/// the source.
pub fn json_pair_key(node: &SyntaxNode, source: &str) -> (key: Option<Option<String>>)
    ensures
        path_view(key) == (match json_label(node@) {
            Some(child) => match text_at(bytes_of(source@), child.start, child.end) {
                Some(key) => Some(Some(unquoted(key))),
                None => None,
            },
            None => Some(None),
        }),
{
    match &node.field {
        Some(child) => {
            return match node_text(child, source) {
                Some(key) => Some(Some(trim_json_string(key.as_str()))),
                None => None,
            };
        },
        None => {},
    }
    let ghost all = views(node.children@);
    let mut i: usize = 0;
    assert(all.skip(0) =~= all);
    while i < node.children.len()
        invariant
            i <= node.children@.len(),
            all == views(node.children@),
            node.field is None,
            first_json_string(all) == first_json_string(all.skip(i as int)),
        decreases node.children@.len() - i,
    {
        let child = &node.children[i];
        assert(all.skip(i as int)[0] == child@);
        assert(all.skip(i as int).drop_first() =~= all.skip(i + 1));
        if same_text(child.kind.as_str(), "string") {
            return match node_text(child, source) {
                Some(key) => Some(Some(trim_json_string(key.as_str()))),
                None => None,
            };
        }
        i = i + 1;
    }
    Some(None)
}

/// The place of `child` among the values of an array.
pub fn json_array_index_for_child(array: &SyntaxNode, child: &SyntaxNode) -> (index: Option<usize>)
    ensures
        match index {
            Some(index) => array@.kind == "array"@ && array_index(
                array@.children,
                child@.start,
                child@.end,
            ) == Some(index as int),
            None => array@.kind != "array"@ || array_index(
                array@.children,
                child@.start,
                child@.end,
            ) is None,
        },
{
    if !same_text(array.kind.as_str(), "array") {
        return None;
    }
    let ghost all = views(array.children@);
    let mut count: usize = 0;
    let mut i: usize = 0;
    assert(all.skip(0) =~= all);
    while i < array.children.len()
        invariant
            count <= i <= array.children@.len(),
            all == views(array.children@),
            array@.kind == "array"@,
            array_index(all, child@.start, child@.end) == (match array_index(
                all.skip(i as int),
                child@.start,
                child@.end,
            ) {
                Some(index) => Some(index + count),
                None => None,
            }),
        decreases array.children@.len() - i,
    {
        let other = &array.children[i];
        assert(all.skip(i as int)[0] == other@);
        assert(all.skip(i as int).drop_first() =~= all.skip(i + 1));
        if is_json_value(other.kind.as_str()) {
            if other.start_byte == child.start_byte && other.end_byte == child.end_byte {
                return Some(count);
            }
            count = count + 1;
        }
        i = i + 1;
    }
    None
}

/// Nothing comes of more names where there is nothing of fewer.
proof fn lemma_json_names_none(
    chain: Seq<SyntaxView>,
    bytes: Seq<u8>,
    from: int,
    at: int,
    inner: int,
)
    requires
        inner <= at,
        json_names(chain, bytes, from, at) is None,
    ensures
        json_names(chain, bytes, from, inner) is None,
    decreases at - inner,
{
    if inner < at {
        lemma_json_names_none(chain, bytes, from, at, inner + 1);
    }
}

/// The path to the bytes of a span through the pairs and arrays of `chain`.
pub fn json_path_through(chain: &Option<Vec<SyntaxNode>>, source: &str, span: &ChunkSpan) -> (path:
    Option<Option<String>>)
    ensures
        path_view(path) == json_path(
            chain_view(*chain),
            bytes_of(source@),
            span@.start,
            span@.end,
        ),
{
    match chain {
        None => Some(None),
        Some(nodes) => {
            if nodes.len() == 0 {
                return Some(None);
            }
            let ghost all = views(nodes@);
            let ghost bytes = bytes_of(source@);
            let inner: usize = find_covering(nodes, span.start_byte, span.end_byte);
            let mut names: Vec<String> = Vec::new();
            let mut at: usize = nodes.len();
            assert(texts(names@) =~= Seq::<Seq<char>>::empty());
            while at > inner
                invariant
                    inner <= at <= nodes@.len(),
                    all == views(nodes@),
                    chain_view(*chain) == Some(all),
                    bytes == bytes_of(source@),
                    inner == covering(all, span@.start, span@.end, 0),
                    nodes@.len() > 0,
                    json_names(all, bytes, inner as int, at as int) == Some(texts(names@)),
                decreases at,
            {
                at = at - 1;
                let node = &nodes[at];
                assert(all[at as int] == node@);
                let ghost before = texts(names@);
                assert(before + Seq::<Seq<char>>::empty() =~= before);
                if same_text(node.kind.as_str(), "pair") {
                    match json_pair_key(node, source) {
                        Some(Some(key)) => {
                            names.push(key);
                            assert(texts(names@) =~= before + seq![key@]);
                        },
                        Some(None) => {},
                        None => {
                            proof {
                                lemma_json_names_none(
                                    all,
                                    bytes,
                                    inner as int,
                                    at as int,
                                    inner as int,
                                );
                            }
                            return None;
                        },
                    }
                } else if same_text(node.kind.as_str(), "array") && at > inner {
                    assert(all[at - 1] == nodes@[at - 1]@);
                    match json_array_index_for_child(node, &nodes[at - 1]) {
                        Some(index) => {
                            let mut place: String = "[".to_owned();
                            push_decimal(&mut place, index as u64);
                            place.push_str("]");
                            names.push(place);
                            assert(texts(names@) =~= before + seq![place@]);
                        },
                        None => {},
                    }
                }
            }
            make_path(Some(names), ".")
        },
    }
}

/// The keys and places that lead to a span of a JSON document, if there are any;
/// nothing where a key cannot be cut out of the source.
pub fn compute_json_path(tree: &tree_sitter::Tree, source: &str, span: &ChunkSpan) -> (path: Option<
    Option<String>,
>)
    ensures
        path_view(path) == json_path(
            chain_of(*tree, span@.start, span@.end, "key"@),
            bytes_of(source@),
            span@.start,
            span@.end,
        ),
{
    let chain = enclosing_nodes(tree, span.start_byte, span.end_byte, "key");
    json_path_through(&chain, source, span)
}

// ---------------------------------------------------------------------------
// By language
// ---------------------------------------------------------------------------

/// The context path of a span: there is one in XML and in JSON.
pub open spec fn context_path(
    language: Seq<char>,
    tree: tree_sitter::Tree,
    bytes: Seq<u8>,
    span: Span,
) -> Option<Option<Seq<char>>> {
    if language == "xml"@ {
        xml_path(chain_of(tree, span.start, span.end, "name"@), bytes, span.start, span.end)
    } else if language == "json"@ {
        json_path(chain_of(tree, span.start, span.end, "key"@), bytes, span.start, span.end)
    } else {
        Some(None)
    }
}

/// The context path of a span, if it has one; nothing where a name in it cannot
/// be cut out of the source.
pub fn compute_context_path(
    language: &str,
    tree: &tree_sitter::Tree,
    source: &str,
    span: &ChunkSpan,
) -> (path: Option<Option<String>>)
    ensures
        path_view(path) == context_path(language@, *tree, bytes_of(source@), span@),
{
    if same_text(language, "xml") {
        compute_xml_path(tree, source, span)
    } else if same_text(language, "json") {
        compute_json_path(tree, source, span)
    } else {
        Some(None)
    }
}

} // verus!
