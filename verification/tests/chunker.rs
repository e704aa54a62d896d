use mcp_search::chunker::{
    build_chunk_header, fallback_chunk, plan_structure, structural_chunks, try_structural_chunks,
};
use mcp_search::context::{
    json_array_index_for_child, json_path_through, trim_json_string, xml_path_through,
};
use mcp_search::nodes::{chunk_node, extract_nodes, node_lines, Capture};
use mcp_search::search::strip_chunk_header;
use mcp_search::spans::ChunkSpan;
use mcp_search::syntax::{SyntaxChild, SyntaxNode};

fn span(start: usize, end: usize) -> ChunkSpan {
    ChunkSpan {
        start_byte: start,
        end_byte: end,
        start_line: 3,
        end_line: 4,
        node_kind: "function_item".to_string(),
    }
}

fn capture(name: &str, kind: &str, start: usize, end: usize, first: usize, last: usize) -> Capture {
    Capture {
        name: name.to_string(),
        kind: kind.to_string(),
        start_byte: start,
        end_byte: end,
        start_row: first,
        end_row: last,
    }
}

fn child(kind: &str, start: usize, end: usize) -> SyntaxChild {
    SyntaxChild { kind: kind.to_string(), start_byte: start, end_byte: end }
}

fn node(kind: &str, start: usize, end: usize, field: Option<SyntaxChild>, children: Vec<SyntaxChild>) -> SyntaxNode {
    SyntaxNode { kind: kind.to_string(), start_byte: start, end_byte: end, field, children }
}

fn json_tree(source: &str) -> tree_sitter::Tree {
    let mut parser = tree_sitter::Parser::new();
    parser.set_language(&tree_sitter::Language::from(tree_sitter_json::LANGUAGE)).unwrap();
    parser.parse(source, None).unwrap()
}

fn json_query(text: &str) -> tree_sitter::Query {
    tree_sitter::Query::new(&tree_sitter::Language::from(tree_sitter_json::LANGUAGE), text).unwrap()
}

#[test]
fn header_has_a_line_for_each_fact() {
    assert_eq!(
        build_chunk_header("/a/b.rs", "rust", &span(0, 1), &None),
        "FILE: /a/b.rs\nLANG: rust\nKIND: function_item\nLINES: 3-4\n\n"
    );
    assert_eq!(
        build_chunk_header("x", "xml", &span(0, 1), &Some("a/b".to_string())),
        "FILE: x\nLANG: xml\nKIND: function_item\nLINES: 3-4\nPATH: a/b\n\n"
    );
}

#[test]
fn short_file_is_one_chunk() {
    let chunks = fallback_chunk("/a", "text", "one\ntwo\n", 300, 50);
    assert_eq!(chunks.len(), 1);
    assert_eq!(chunks[0].text, "FILE: /a\nLANG: text\nKIND: file\nLINES: 1-2\n\none\ntwo\n");
    assert_eq!(chunks[0].metadata.file_path, "/a");
    assert_eq!(chunks[0].metadata.language, "text");
    assert_eq!(chunks[0].metadata.node_kind, "file");
    assert_eq!(chunks[0].metadata.start_line, 1);
    assert_eq!(chunks[0].metadata.end_line, 2);
    assert!(chunks[0].metadata.parent_context.is_none());
    let empty = fallback_chunk("/a", "text", "", 300, 50);
    assert_eq!(empty[0].text, "FILE: /a\nLANG: text\nKIND: file\nLINES: 1-1\n\n");
}

#[test]
fn chunk_ids_are_random_identifiers() {
    let chunks = fallback_chunk("/a", "text", "aaaaaaa\nbbbbbbb\n", 2, 0);
    assert_eq!(chunks.len(), 2);
    assert_ne!(chunks[0].id, chunks[1].id);
    for chunk in &chunks {
        let id: Vec<char> = chunk.id.chars().collect();
        assert_eq!(id.len(), 36);
        for (i, c) in id.iter().enumerate() {
            if i == 8 || i == 13 || i == 18 || i == 23 {
                assert_eq!(*c, '-');
            } else {
                assert!(c.is_ascii_digit() || ('a'..='f').contains(c));
            }
        }
        assert_eq!(id[14], '4');
        assert!(matches!(id[19], '8' | '9' | 'a' | 'b'));
    }
}

#[test]
fn long_file_is_cut_with_overlap() {
    let chunks = fallback_chunk("/a", "text", "aaaaaaa\nbbbbbbb\nccccccc\nddddddd\n", 4, 1);
    let bodies: Vec<String> = chunks.iter().map(|c| strip_chunk_header(&c.text)).collect();
    assert_eq!(bodies, vec!["aaaaaaa\nbbbbbbb\n", "bbbbbbb\nccccccc\nddddddd\n"]);
    assert_eq!(chunks[1].metadata.start_line, 2);
    assert_eq!(chunks[1].metadata.end_line, 4);
}

#[test]
fn every_text_is_cut() {
    for text in ["fn a() {}\r\n\r\nfn bb() { let x = 1; }\nend", "", "\u{20ac}\u{1f600}\u{e9}a\n\u{1f600}\u{1f600}\u{1f600}b"] {
        for max in 0..6 {
            let cut: String = fallback_chunk("/a", "text", text, max, 0)
                .iter()
                .map(|c| strip_chunk_header(&c.text))
                .collect();
            assert_eq!(cut, text);
            for overlap in 0..6 {
                let plain = fallback_chunk("/a", "text", text, max, 0);
                let chunks = fallback_chunk("/a", "text", text, max, overlap);
                assert_eq!(chunks.len(), plain.len());
                for (chunk, own) in chunks.iter().zip(&plain) {
                    assert!(strip_chunk_header(&chunk.text).ends_with(&strip_chunk_header(&own.text)));
                }
            }
        }
    }
}

#[test]
fn an_overlap_starts_with_a_whole_character() {
    let bodies = |text: &str, max, overlap| -> Vec<String> {
        fallback_chunk("/a", "text", text, max, overlap)
            .iter()
            .map(|c| strip_chunk_header(&c.text))
            .collect()
    };
    assert_eq!(bodies("aaaéaaaaaaa", 2, 1), vec!["aaaéaaa", "éaaaaaaa"]);
    let text = "äääää\nbbbbbbbbbb\n";
    assert_eq!(bodies(text, 3, 2), vec!["äääää\n", text]);
    let long = "€".repeat(700);
    let parts = bodies(&long, 300, 50);
    assert_eq!(parts.iter().map(|part| part.chars().count()).collect::<Vec<_>>(), vec![400, 367]);
}

#[test]
fn structural_captures_nest() {
    let captures = vec![
        capture("structural", "impl", 0, 50, 0, 9),
        capture("other", "name", 5, 8, 0, 0),
        capture("structural", "fn", 10, 20, 2, 3),
        capture("structural", "again", 10, 20, 2, 3),
        capture("structural", "fn", 25, 40, 4, 7),
        capture("structural", "mod", 60, 70, 10, 11),
    ];
    let nodes = extract_nodes(&captures);
    let told: Vec<(usize, usize, usize, usize, &str, Vec<usize>, Option<usize>)> = nodes
        .iter()
        .map(|n| (n.start_byte, n.end_byte, n.start_line, n.end_line, n.kind.as_str(), n.children.clone(), n.parent))
        .collect();
    assert_eq!(
        told,
        vec![
            (0, 50, 1, 10, "impl", vec![1, 2], None),
            (10, 20, 3, 4, "fn", vec![], Some(0)),
            (25, 40, 5, 8, "fn", vec![], Some(0)),
            (60, 70, 11, 12, "mod", vec![], None),
        ]
    );
    assert_eq!(node_lines(0, 4), (1, 5));
}

#[test]
fn nodes_that_start_together_do_not_nest() {
    let captures = vec![capture("structural", "outer", 0, 50, 0, 9), capture("structural", "inner", 0, 20, 0, 3)];
    let nodes = extract_nodes(&captures);
    assert_eq!(nodes[0].kind, "inner");
    assert_eq!(nodes[0].parent, None);
    assert_eq!(nodes[1].kind, "outer");
    assert_eq!(nodes[1].parent, None);
}

#[test]
fn large_nodes_give_way_to_their_children() {
    let source = "a".repeat(60);
    let captures = vec![
        capture("structural", "impl", 0, 50, 0, 0),
        capture("structural", "fn", 10, 20, 0, 0),
        capture("structural", "fn", 20, 30, 0, 0),
        capture("structural", "fn", 40, 50, 0, 0),
    ];
    let nodes = extract_nodes(&captures);
    let spans = chunk_node(0, &nodes, &source, 5).unwrap();
    let told: Vec<(usize, usize, &str)> =
        spans.iter().map(|s| (s.start_byte, s.end_byte, s.node_kind.as_str())).collect();
    assert_eq!(told, vec![(10, 30, "impl"), (40, 50, "fn")]);
    let whole = chunk_node(0, &nodes, &source, 0).unwrap();
    assert_eq!(whole.len(), 1);
    let planned = plan_structure(&source, &nodes, 5, 0).unwrap();
    assert_eq!(planned.len(), 2);
}

#[test]
fn json_file_is_cut_along_its_structure() {
    let source = "{\n  \"first\": {\"a\": 1},\n  \"second\": [10, {\"b\": 2}]\n}\n";
    let tree = json_tree(source);
    let query = json_query("(pair) @structural");
    let chunks = structural_chunks("/x.json", "json", source, &tree, &query, 3, 0);
    let told: Vec<(String, String, Option<String>)> = chunks
        .iter()
        .map(|c| (strip_chunk_header(&c.text), c.metadata.node_kind.clone(), c.metadata.parent_context.clone()))
        .collect();
    assert_eq!(
        told,
        vec![
            ("\"a\": 1".to_string(), "pair".to_string(), Some("first.a".to_string())),
            ("\"b\": 2".to_string(), "pair".to_string(), Some("second.[1].b".to_string())),
        ]
    );
    assert!(chunks[0].text.starts_with("FILE: /x.json\nLANG: json\nKIND: pair\nLINES: 2-2\nPATH: first.a\n\n"));
}

#[test]
fn whole_pairs_are_kept_where_they_fit() {
    let source = "{\"first\": 1, \"second\": 2}";
    let tree = json_tree(source);
    let query = json_query("(pair) @structural");
    let chunks = try_structural_chunks("/x.json", "json", source, &tree, &query, 300, 0).unwrap();
    assert_eq!(
        chunks.iter().map(|c| strip_chunk_header(&c.text)).collect::<Vec<_>>(),
        vec!["\"first\": 1", "\"second\": 2"]
    );
}

#[test]
fn only_structural_captures_count() {
    let source = "{\"first\": 1}";
    let tree = json_tree(source);
    let query = json_query("(pair) @other");
    let chunks = structural_chunks("/x.json", "json", source, &tree, &query, 300, 0);
    assert_eq!(chunks.len(), 1);
    assert_eq!(chunks[0].metadata.node_kind, "file");
    assert_eq!(strip_chunk_header(&chunks[0].text), source);
}

#[test]
fn xml_path_names_the_elements() {
    let source = "<a><b>text</b></a>";
    let chain = Some(vec![
        node("text", 6, 10, None, vec![]),
        node("element", 3, 14, None, vec![child("start_tag", 3, 6), child("name", 4, 5)]),
        node("element", 0, 18, Some(child("name", 1, 2)), vec![]),
        node("document", 0, 18, None, vec![]),
    ]);
    assert_eq!(xml_path_through(&chain, source, &span(6, 10)), Some(Some("a/b".to_string())));
    assert_eq!(xml_path_through(&chain, source, &span(0, 18)), Some(Some("a".to_string())));
    assert_eq!(xml_path_through(&None, source, &span(0, 18)), Some(None));
    let bare = Some(vec![node("document", 0, 18, None, vec![])]);
    assert_eq!(xml_path_through(&bare, source, &span(0, 18)), Some(None));
}

#[test]
fn a_name_inside_a_character_is_told() {
    let chain = Some(vec![node("element", 0, 3, Some(child("name", 1, 2)), vec![])]);
    assert_eq!(xml_path_through(&chain, "äb", &span(0, 3)), None);
    let pair = Some(vec![node("pair", 0, 3, Some(child("string", 1, 2)), vec![])]);
    assert_eq!(json_path_through(&pair, "äb", &span(0, 3)), None);
}

#[test]
fn json_path_counts_values() {
    let array = node(
        "array",
        0,
        9,
        None,
        vec![child("[", 0, 1), child("number", 1, 2), child(",", 2, 3), child("true", 4, 8), child("]", 8, 9)],
    );
    let value = node("true", 4, 8, None, vec![]);
    assert_eq!(json_array_index_for_child(&array, &value), Some(1));
    assert_eq!(json_array_index_for_child(&value, &array), None);
    let chain = Some(vec![value, array]);
    assert_eq!(json_path_through(&chain, "[1, true]", &span(4, 8)), Some(Some("[1]".to_string())));
}

#[test]
fn json_keys_lose_their_quotes() {
    assert_eq!(trim_json_string("  \"key\" "), "key");
    assert_eq!(trim_json_string("key"), "key");
    assert_eq!(trim_json_string("\""), "\"");
    assert_eq!(trim_json_string("\"\""), "");
}

#[test]
fn ascii_structure_is_cut_within_limits() {
    let source = "{\n  \"one\": {\"a\": [1, 2, 3], \"b\": \"text\"},\n  \"two\": [true, null, {\"c\": 4}]\n}\n";
    let tree = json_tree(source);
    let query = json_query("(object) @structural (array) @structural (pair) @structural");
    for max in 1..20 {
        for overlap in 0..5 {
            assert!(try_structural_chunks("/x.json", "json", source, &tree, &query, max, overlap).is_some());
        }
        for chunk in structural_chunks("/x.json", "json", source, &tree, &query, max, 0) {
            let body = strip_chunk_header(&chunk.text);
            assert!(source.contains(&body));
            assert!(body.len().div_ceil(4) <= max);
        }
    }
}
