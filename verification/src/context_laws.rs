//! What holds of every context path.
use crate::context::{
    array_index, context_path, covering, json_label, json_names, json_path, text_at, unquoted,
    xml_label, xml_names, xml_path,
};
use crate::lines::{cut_out, range_ok};
use crate::spans::Span;
use crate::syntax::{
    above, chain_of, child_in, children_of, end_of, kind_of, lineage, parent_of, plain_with,
    start_of, ChildView, SyntaxView,
};
use crate::text::{decimal, joined, trimmed, white};
use crate::text_laws::{law_joined, law_trimmed};
use vstd::prelude::*;
use vstd::utf8::*;

verus! {

// ---------------------------------------------------------------------------
// Places in an array
// ---------------------------------------------------------------------------

/// Whether a node of a kind is one of the values of JSON.
pub open spec fn is_value(kind: Seq<char>) -> bool {
    kind == "object"@ || kind == "array"@ || kind == "string"@ || kind == "number"@ || kind
        == "true"@ || kind == "false"@ || kind == "null"@
}

/// How many of the first `before` children are values.
pub open spec fn values_before(children: Seq<ChildView>, before: int) -> int
    decreases before,
{
    if before <= 0 {
        0
    } else {
        values_before(children, before - 1) + if is_value(children[before - 1].kind) {
            1int
        } else {
            0
        }
    }
}

/// Whether a child is a value that lies on the bytes from `start` to `end`.
pub open spec fn value_at(child: ChildView, start: int, end: int) -> bool {
    is_value(child.kind) && child.start == start && child.end == end
}

/// The values before a later child are those behind the first and the first.
proof fn lemma_values_behind(children: Seq<ChildView>, before: int)
    requires
        0 < before <= children.len(),
    ensures
        values_before(children, before) == values_before(children.drop_first(), before - 1)
            + if is_value(children[0].kind) {
            1int
        } else {
            0
        },
    decreases before,
{
    if before > 1 {
        lemma_values_behind(children, before - 1);
        assert(children.drop_first()[before - 2] == children[before - 1]);
    } else {
        assert(values_before(children, 0) == 0);
    }
}

/// The place of a value in an array is the number of values that stand before it,
/// whatever their kinds, and only values have a place.
pub proof fn law_array_place(children: Seq<ChildView>, start: int, end: int)
    ensures
        match array_index(children, start, end) {
            Some(place) => exists|at: int|
                0 <= at < children.len() && value_at(#[trigger] children[at], start, end) && place
                    == values_before(children, at) && forall|k: int|
                    0 <= k < at ==> !value_at(#[trigger] children[k], start, end),
            None => forall|k: int|
                0 <= k < children.len() ==> !value_at(#[trigger] children[k], start, end),
        },
    decreases children.len(),
{
    if children.len() > 0 {
        let rest = children.drop_first();
        if value_at(children[0], start, end) {
            assert(values_before(children, 0) == 0);
        } else {
            law_array_place(rest, start, end);
            match array_index(rest, start, end) {
                Some(_) => {
                    let at = choose|at: int|
                        0 <= at < rest.len() && value_at(#[trigger] rest[at], start, end)
                            && array_index(rest, start, end)->0 == values_before(rest, at)
                            && forall|k: int|
                            0 <= k < at ==> !value_at(#[trigger] rest[k], start, end);
                    lemma_values_behind(children, at + 1);
                    assert(children[at + 1] == rest[at]);
                    assert forall|k: int| 0 <= k < at + 1 implies !value_at(
                        #[trigger] children[k],
                        start,
                        end,
                    ) by {
                        if k > 0 {
                            assert(children[k] == rest[k - 1]);
                        }
                    }
                },
                None => {
                    assert forall|k: int| 0 <= k < children.len() implies !value_at(
                        #[trigger] children[k],
                        start,
                        end,
                    ) by {
                        if k > 0 {
                            assert(children[k] == rest[k - 1]);
                        }
                    }
                },
            }
        }
    }
}

/// Fewer values stand before an earlier value.
proof fn lemma_values_grow(children: Seq<ChildView>, a: int, b: int)
    requires
        0 <= a < b <= children.len(),
        is_value(children[a].kind),
    ensures
        values_before(children, a) < values_before(children, b),
    decreases b,
{
    if b - 1 > a {
        lemma_values_grow(children, a, b - 1);
    }
}

/// Two values of one array never have the same place, unless they lie on the same
/// bytes.
pub proof fn law_places_differ(children: Seq<ChildView>, a: int, b: int)
    requires
        0 <= a < children.len(),
        0 <= b < children.len(),
        is_value(children[a].kind),
        is_value(children[b].kind),
        (children[a].start, children[a].end) != (children[b].start, children[b].end),
    ensures
        array_index(children, children[a].start, children[a].end) is Some,
        array_index(children, children[a].start, children[a].end) != array_index(
            children,
            children[b].start,
            children[b].end,
        ),
{
    let one = children[a];
    let two = children[b];
    law_array_place(children, one.start, one.end);
    law_array_place(children, two.start, two.end);
    assert(value_at(children[a], one.start, one.end));
    assert(value_at(children[b], two.start, two.end));
    let i = choose|at: int|
        0 <= at < children.len() && value_at(#[trigger] children[at], one.start, one.end)
            && array_index(children, one.start, one.end)->0 == values_before(children, at)
            && forall|k: int| 0 <= k < at ==> !value_at(#[trigger] children[k], one.start, one.end);
    let j = choose|at: int|
        0 <= at < children.len() && value_at(#[trigger] children[at], two.start, two.end)
            && array_index(children, two.start, two.end)->0 == values_before(children, at)
            && forall|k: int| 0 <= k < at ==> !value_at(#[trigger] children[k], two.start, two.end);
    if i < j {
        lemma_values_grow(children, i, j);
    } else {
        lemma_values_grow(children, j, i);
    }
}

// ---------------------------------------------------------------------------
// Keys
// ---------------------------------------------------------------------------

/// A text between quotation marks, with any white space around them, is the text; a
/// text that neither starts nor ends with white space or a quotation mark is
/// itself.
pub proof fn law_unquoted(front: Seq<char>, key: Seq<char>, behind: Seq<char>)
    requires
        forall|k: int| 0 <= k < front.len() ==> white(#[trigger] front[k]),
        forall|k: int| 0 <= k < behind.len() ==> white(#[trigger] behind[k]),
    ensures
        unquoted(front + Seq::empty().push('"') + key + Seq::empty().push('"') + behind) == key,
        key.len() > 0 && !white(key[0]) && !white(key.last()) && key[0] != '"' ==> unquoted(
            front + key + behind,
        ) == key,
{
    let one = Seq::empty().push('"');
    let quoted = one + key + one;
    assert(front + one + key + one + behind =~= front + quoted + behind);
    lemma_trimmed_core(front, quoted, behind);
    assert(quoted.subrange(1, quoted.len() - 1) =~= key);
    if key.len() > 0 && !white(key[0]) && !white(key.last()) {
        lemma_trimmed_core(front, key, behind);
    }
}

/// White space around a text that neither starts nor ends with any is taken away.
proof fn lemma_trimmed_core(front: Seq<char>, core: Seq<char>, behind: Seq<char>)
    requires
        forall|k: int| 0 <= k < front.len() ==> white(#[trigger] front[k]),
        forall|k: int| 0 <= k < behind.len() ==> white(#[trigger] behind[k]),
        core.len() > 0,
        !white(core[0]),
        !white(core.last()),
    ensures
        trimmed(front + core + behind) == core,
{
    let text = front + core + behind;
    let from = law_trimmed(text);
    let to = from + trimmed(text).len();
    let a = front.len() as int;
    let b = a + core.len();
    assert(text[a] == core[0]);
    assert(text[b - 1] == core.last());
    assert(from <= a && b <= to);
    if from < a {
        assert(trimmed(text)[0] == front[from]);
    }
    if b < to {
        assert(trimmed(text).last() == behind[to - 1 - b]);
    }
    assert(text.subrange(a, b) =~= core);
}

// ---------------------------------------------------------------------------
// Paths
// ---------------------------------------------------------------------------

/// The text of the bytes from `start` to `end`.
pub open spec fn bytes_text(bytes: Seq<u8>, start: int, end: int) -> Seq<char> {
    decode_utf8(bytes.subrange(start, end))
}

/// The text of a node is that of its bytes.
pub proof fn law_node_text(bytes: Seq<u8>, start: int, end: int)
    requires
        0 <= start < end <= bytes.len(),
        is_char_boundary(bytes, start),
        is_char_boundary(bytes, end),
    ensures
        text_at(bytes, start, end) == Some(bytes_text(bytes, start, end)),
{
    assert(range_ok(bytes, start, end));
    assert(cut_out(bytes, start, end) =~= bytes.subrange(start, end));
}

/// A path starts at the first node of the chain that holds all bytes of the span,
/// or, where none does, at the last one.
pub proof fn law_path_starts_around_span(chain: Seq<SyntaxView>, start: int, end: int, at: int)
    requires
        0 <= at < chain.len(),
    ensures
        ({
            let from = covering(chain, start, end, at);
            &&& at <= from < chain.len()
            &&& (chain[from].start <= start && end <= chain[from].end) || from == chain.len() - 1
            &&& forall|k: int|
                at <= k < from ==> !((#[trigger] chain[k]).start <= start && end <= chain[k].end)
        }),
    decreases chain.len() - at,
{
    if at + 1 < chain.len() && !(chain[at].start <= start && end <= chain[at].end) {
        law_path_starts_around_span(chain, start, end, at + 1);
    }
}

/// The child that names a node of a JSON document or of an XML document: the one in
/// the field where there is one, else the first of a fitting kind.
pub proof fn law_label(node: SyntaxView)
    ensures
        node.field is Some ==> json_label(node) == node.field && xml_label(node) == node.field,
        node.field is None ==> match json_label(node) {
            Some(child) => exists|at: int|
                0 <= at < node.children.len() && #[trigger] node.children[at] == child && child.kind
                    == "string"@ && forall|k: int|
                    0 <= k < at ==> (#[trigger] node.children[k]).kind != "string"@,
            None => forall|k: int|
                0 <= k < node.children.len() ==> (#[trigger] node.children[k]).kind != "string"@,
        },
        node.field is None ==> match xml_label(node) {
            Some(child) => exists|at: int|
                0 <= at < node.children.len() && #[trigger] node.children[at] == child
                    && names_element(child.kind) && forall|k: int|
                    0 <= k < at ==> !names_element((#[trigger] node.children[k]).kind),
            None => forall|k: int|
                0 <= k < node.children.len() ==> !names_element(
                    (#[trigger] node.children[k]).kind,
                ),
        },
{
    lemma_first_string(node.children);
    lemma_first_name(node.children);
}

/// Whether a node of a kind holds the name of an XML element.
pub open spec fn names_element(kind: Seq<char>) -> bool {
    kind == "name"@ || kind == "tag_name"@ || kind == "qualified_name"@
}

/// The first string among children is the first.
proof fn lemma_first_string(children: Seq<ChildView>)
    ensures
        match crate::context::first_json_string(children) {
            Some(child) => exists|at: int|
                0 <= at < children.len() && #[trigger] children[at] == child && child.kind
                    == "string"@ && forall|k: int|
                    0 <= k < at ==> (#[trigger] children[k]).kind != "string"@,
            None => forall|k: int|
                0 <= k < children.len() ==> (#[trigger] children[k]).kind != "string"@,
        },
    decreases children.len(),
{
    if children.len() > 0 && children[0].kind != "string"@ {
        let rest = children.drop_first();
        lemma_first_string(rest);
        match crate::context::first_json_string(rest) {
            Some(child) => {
                let at = choose|at: int|
                    0 <= at < rest.len() && #[trigger] rest[at] == child && child.kind == "string"@
                        && forall|k: int| 0 <= k < at ==> (#[trigger] rest[k]).kind != "string"@;
                assert(children[at + 1] == child);
                assert forall|k: int| 0 <= k < at + 1 implies (#[trigger] children[k]).kind
                    != "string"@ by {
                    if k > 0 {
                        assert(children[k] == rest[k - 1]);
                    }
                }
            },
            None => {
                assert forall|k: int| 0 <= k < children.len() implies (
                #[trigger] children[k]).kind != "string"@ by {
                    if k > 0 {
                        assert(children[k] == rest[k - 1]);
                    }
                }
            },
        }
    }
}

/// The first name among children is the first.
proof fn lemma_first_name(children: Seq<ChildView>)
    ensures
        match crate::context::first_xml_name(children) {
            Some(child) => exists|at: int|
                0 <= at < children.len() && #[trigger] children[at] == child && names_element(
                    child.kind,
                ) && forall|k: int|
                    0 <= k < at ==> !names_element((#[trigger] children[k]).kind),
            None => forall|k: int|
                0 <= k < children.len() ==> !names_element((#[trigger] children[k]).kind),
        },
    decreases children.len(),
{
    if children.len() > 0 && !names_element(children[0].kind) {
        let rest = children.drop_first();
        lemma_first_name(rest);
        match crate::context::first_xml_name(rest) {
            Some(child) => {
                let at = choose|at: int|
                    0 <= at < rest.len() && #[trigger] rest[at] == child && names_element(
                        child.kind,
                    ) && forall|k: int| 0 <= k < at ==> !names_element((#[trigger] rest[k]).kind);
                assert(children[at + 1] == child);
                assert forall|k: int| 0 <= k < at + 1 implies !names_element(
                    (#[trigger] children[k]).kind,
                ) by {
                    if k > 0 {
                        assert(children[k] == rest[k - 1]);
                    }
                }
            },
            None => {
                assert forall|k: int| 0 <= k < children.len() implies !names_element(
                    (#[trigger] children[k]).kind,
                ) by {
                    if k > 0 {
                        assert(children[k] == rest[k - 1]);
                    }
                }
            },
        }
    }
}

/// What a node of a JSON document adds to the names of the nodes around it, which
/// come first: a pair its key, an array the place of the node below it that the
/// path goes through, and any other node nothing.
pub proof fn law_json_names(chain: Seq<SyntaxView>, bytes: Seq<u8>, from: int, at: int)
    requires
        0 <= from <= at < chain.len(),
        json_names(chain, bytes, from, at) is Some,
    ensures
        json_names(chain, bytes, from, at + 1) is Some,
        ({
            let node = chain[at];
            let outer = json_names(chain, bytes, from, at + 1)->0;
            let names = json_names(chain, bytes, from, at)->0;
            if node.kind == "pair"@ && json_label(node) is Some {
                let key = json_label(node)->0;
                text_at(bytes, key.start, key.end) is Some && names == outer.push(
                    unquoted(text_at(bytes, key.start, key.end)->0),
                )
            } else if node.kind == "array"@ && at > from {
                let below = chain[at - 1];
                match array_index(node.children, below.start, below.end) {
                    Some(place) => names == outer.push(
                        Seq::empty().push('[') + decimal(place as nat) + Seq::empty().push(']'),
                    ),
                    None => names == outer,
                }
            } else {
                names == outer
            }
        }),
{
    reveal_strlit("[");
    reveal_strlit("]");
    assert("["@ =~= Seq::empty().push('['));
    assert("]"@ =~= Seq::empty().push(']'));
    let outer = json_names(chain, bytes, from, at + 1)->0;
    let names = json_names(chain, bytes, from, at)->0;
    let node = chain[at];
    lemma_json_kinds();
    assert(outer + Seq::<Seq<char>>::empty() =~= outer);
    if node.kind == "pair"@ && json_label(node) is Some {
        let key = json_label(node)->0;
        let text = unquoted(text_at(bytes, key.start, key.end)->0);
        assert(outer + seq![text] =~= outer.push(text));
    } else if node.kind == "array"@ && at > from {
        let below = chain[at - 1];
        match array_index(node.children, below.start, below.end) {
            Some(place) => {
                let text = "["@ + decimal(place as nat) + "]"@;
                assert(outer + seq![text] =~= outer.push(text));
            },
            None => {},
        }
    }
}

/// A pair is no array.
proof fn lemma_json_kinds()
    ensures
        "pair"@ != "array"@,
{
    reveal_strlit("pair");
    reveal_strlit("array");
    assert("pair"@.len() == 4);
}

/// The names of the outer nodes of a JSON document come first: the path to a node
/// starts with the path to each node around it.
pub proof fn law_json_names_outermost_first(
    chain: Seq<SyntaxView>,
    bytes: Seq<u8>,
    from: int,
    at: int,
    outer: int,
)
    requires
        0 <= from <= at <= outer <= chain.len(),
        json_names(chain, bytes, from, at) is Some,
    ensures
        json_names(chain, bytes, from, outer) is Some,
        (json_names(chain, bytes, from, outer)->0).is_prefix_of(
            json_names(chain, bytes, from, at)->0,
        ),
    decreases outer - at,
{
    if at < outer {
        law_json_names(chain, bytes, from, at);
        law_json_names_outermost_first(chain, bytes, from, at + 1, outer);
        let inner = json_names(chain, bytes, from, at)->0;
        let next = json_names(chain, bytes, from, at + 1)->0;
        let front = json_names(chain, bytes, from, outer)->0;
        assert(next =~= inner.subrange(0, next.len() as int));
        assert(front =~= inner.subrange(0, front.len() as int));
    } else {
        let names = json_names(chain, bytes, from, at)->0;
        assert(names =~= names.subrange(0, names.len() as int));
    }
}

/// What a node of an XML document adds to the names of the nodes around it, which
/// come first: an element its name, and any other node nothing.
pub proof fn law_xml_names(chain: Seq<SyntaxView>, bytes: Seq<u8>, at: int)
    requires
        0 <= at < chain.len(),
        xml_names(chain, bytes, at) is Some,
    ensures
        xml_names(chain, bytes, at + 1) is Some,
        ({
            let node = chain[at];
            let outer = xml_names(chain, bytes, at + 1)->0;
            let names = xml_names(chain, bytes, at)->0;
            let element = node.kind == "element"@ || node.kind == "empty_element"@ || node.kind
                == "start_tag"@;
            if element && xml_label(node) is Some {
                let name = xml_label(node)->0;
                text_at(bytes, name.start, name.end) is Some && names == outer.push(
                    text_at(bytes, name.start, name.end)->0,
                )
            } else {
                names == outer
            }
        }),
{
    let node = chain[at];
    let outer = xml_names(chain, bytes, at + 1)->0;
    assert(outer + Seq::<Seq<char>>::empty() =~= outer);
    match xml_label(node) {
        Some(name) => {
            match text_at(bytes, name.start, name.end) {
                Some(text) => {
                    assert(outer + seq![text] =~= outer.push(text));
                },
                None => {},
            }
        },
        None => {},
    }
}

/// The names of the outer elements of an XML document come first.
pub proof fn law_xml_names_outermost_first(
    chain: Seq<SyntaxView>,
    bytes: Seq<u8>,
    at: int,
    outer: int,
)
    requires
        0 <= at <= outer <= chain.len(),
        xml_names(chain, bytes, at) is Some,
    ensures
        xml_names(chain, bytes, outer) is Some,
        (xml_names(chain, bytes, outer)->0).is_prefix_of(xml_names(chain, bytes, at)->0),
    decreases outer - at,
{
    if at < outer {
        law_xml_names(chain, bytes, at);
        law_xml_names_outermost_first(chain, bytes, at + 1, outer);
        let inner = xml_names(chain, bytes, at)->0;
        let next = xml_names(chain, bytes, at + 1)->0;
        let front = xml_names(chain, bytes, outer)->0;
        assert(next =~= inner.subrange(0, next.len() as int));
        assert(front =~= inner.subrange(0, front.len() as int));
    } else {
        let names = xml_names(chain, bytes, at)->0;
        assert(names =~= names.subrange(0, names.len() as int));
    }
}

/// The path to a span of a JSON document ends with the key of the pair that it
/// starts from; with more names around it, a dot stands before the key.
pub proof fn law_json_path_ends_with_key(
    chain: Seq<SyntaxView>,
    bytes: Seq<u8>,
    start: int,
    end: int,
)
    requires
        chain.len() > 0,
        json_path(Some(chain), bytes, start, end) is Some,
        chain[covering(chain, start, end, 0)].kind == "pair"@,
        json_label(chain[covering(chain, start, end, 0)]) is Some,
    ensures
        ({
            let from = covering(chain, start, end, 0);
            let label = json_label(chain[from])->0;
            let key = unquoted(text_at(bytes, label.start, label.end)->0);
            let outer = json_names(chain, bytes, from, from + 1)->0;
            let dot = Seq::empty().push('.');
            json_path(Some(chain), bytes, start, end) == Some(
                Some(
                    if outer.len() == 0 {
                        key
                    } else {
                        joined(outer, dot) + dot + key
                    },
                ),
            )
        }),
{
    reveal_strlit(".");
    let dot = Seq::empty().push('.');
    assert("."@ =~= dot);
    law_path_starts_around_span(chain, start, end, 0);
    let from = covering(chain, start, end, 0);
    law_json_names(chain, bytes, from, from);
    let names = json_names(chain, bytes, from, from)->0;
    let outer = json_names(chain, bytes, from, from + 1)->0;
    let key = names.last();
    assert(names =~= outer + Seq::empty().push(key));
    law_joined(outer, Seq::empty().push(key), key, dot);
    if outer.len() == 0 {
        assert(names =~= Seq::empty().push(key));
    }
}

/// The path to a span of an XML document ends with the name of the element that it
/// starts from; with more names around it, a slash stands before the name.
pub proof fn law_xml_path_ends_with_name(
    chain: Seq<SyntaxView>,
    bytes: Seq<u8>,
    start: int,
    end: int,
)
    requires
        chain.len() > 0,
        xml_path(Some(chain), bytes, start, end) is Some,
        chain[covering(chain, start, end, 0)].kind == "element"@,
        xml_label(chain[covering(chain, start, end, 0)]) is Some,
    ensures
        ({
            let from = covering(chain, start, end, 0);
            let label = xml_label(chain[from])->0;
            let name = text_at(bytes, label.start, label.end)->0;
            let outer = xml_names(chain, bytes, from + 1)->0;
            let slash = Seq::empty().push('/');
            xml_path(Some(chain), bytes, start, end) == Some(
                Some(
                    if outer.len() == 0 {
                        name
                    } else {
                        joined(outer, slash) + slash + name
                    },
                ),
            )
        }),
{
    reveal_strlit("/");
    let slash = Seq::empty().push('/');
    assert("/"@ =~= slash);
    law_path_starts_around_span(chain, start, end, 0);
    let from = covering(chain, start, end, 0);
    law_xml_names(chain, bytes, from);
    let names = xml_names(chain, bytes, from)->0;
    let outer = xml_names(chain, bytes, from + 1)->0;
    let name = names.last();
    assert(names =~= outer + Seq::empty().push(name));
    law_joined(outer, Seq::empty().push(name), name, slash);
    if outer.len() == 0 {
        assert(names =~= Seq::empty().push(name));
    }
}

// ---------------------------------------------------------------------------
// The nodes above a node
// ---------------------------------------------------------------------------

/// The node that stands some steps above a node.
pub open spec fn ancestor(node: tree_sitter::Node, steps: int) -> Option<tree_sitter::Node>
    decreases steps,
{
    if steps <= 0 {
        Some(node)
    } else {
        match ancestor(node, steps - 1) {
            Some(below) => parent_of(below),
            None => None,
        }
    }
}

/// One step up and then some are as many steps up.
proof fn lemma_ancestor(node: tree_sitter::Node, parent: tree_sitter::Node, steps: int)
    requires
        parent_of(node) == Some(parent),
        0 <= steps,
    ensures
        ancestor(node, steps + 1) == ancestor(parent, steps),
    decreases steps,
{
    if steps > 0 {
        lemma_ancestor(node, parent, steps - 1);
    } else {
        assert(ancestor(node, 0) == Some(node));
    }
}

/// The chain of a node leads upwards: the node itself comes first, and each is
/// followed by its parent.
pub proof fn law_chain_leads_up(node: tree_sitter::Node, label: Seq<char>, i: int)
    requires
        0 <= i < lineage(node, label).len(),
    ensures
        ancestor(node, i) is Some,
        ({
            let above = ancestor(node, i)->0;
            let told = lineage(node, label)[i];
            &&& told.kind == kind_of(above)
            &&& told.start == start_of(above)
            &&& told.end == end_of(above)
            &&& told.field is Some <==> child_in(above, label) is Some
            &&& told.children.len() == children_of(above).len()
            &&& forall|k: int|
                0 <= k < told.children.len() ==> {
                    &&& (#[trigger] told.children[k]).kind == kind_of(children_of(above)[k])
                    &&& told.children[k].start == start_of(children_of(above)[k])
                    &&& told.children[k].end == end_of(children_of(above)[k])
                }
        }),
    decreases i,
{
    let chain = lineage(node, label);
    if i == 0 {
        assert(chain[0] == plain_with(node, label));
    } else {
        let parent = above(node)->0;
        let rest = lineage(parent, label);
        assert(chain =~= Seq::empty().push(plain_with(node, label)) + rest);
        assert(chain[i] == rest[i - 1]);
        law_chain_leads_up(parent, label, i - 1);
        lemma_ancestor(node, parent, i - 1);
    }
}

/// Which chunks have a context: those of XML have the names of their elements, those
/// of JSON their keys and places, and those of other languages have none.
pub proof fn law_context_by_language(
    language: Seq<char>,
    tree: tree_sitter::Tree,
    bytes: Seq<u8>,
    span: Span,
)
    ensures
        language != "xml"@ && language != "json"@ ==> context_path(language, tree, bytes, span)
            == Some(None::<Seq<char>>),
        language == "xml"@ ==> context_path(language, tree, bytes, span) == xml_path(
            chain_of(tree, span.start, span.end, "name"@),
            bytes,
            span.start,
            span.end,
        ),
        language == "json"@ ==> context_path(language, tree, bytes, span) == json_path(
            chain_of(tree, span.start, span.end, "key"@),
            bytes,
            span.start,
            span.end,
        ),
{
    reveal_strlit("xml");
    reveal_strlit("json");
    assert("xml"@.len() == 3);
    assert("json"@.len() == 4);
}

} // verus!
