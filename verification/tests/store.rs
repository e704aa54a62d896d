use mcp_search::store::{
    build_record_batch, chunk_columns, chunk_table_failure, escape_sql, file_filter,
    is_missing_table_error, read_source_hash, read_source_ids, source_columns, source_filter,
    source_row, type_filter, Column, ColumnKind,
};
use mcp_search::types::{Chunk, ChunkMetadata, EmbeddedChunk};

fn embedded(id: &str, embedding: Vec<i32>) -> EmbeddedChunk<i32> {
    EmbeddedChunk {
        chunk: Chunk {
            id: id.to_string(),
            text: format!("text of {}", id),
            metadata: ChunkMetadata {
                file_path: "/a".to_string(),
                language: "rust".to_string(),
                node_kind: "fn".to_string(),
                start_line: 3,
                end_line: 4,
                parent_context: Some("p".to_string()),
            },
        },
        embedding,
    }
}

#[test]
fn conditions_are_written() {
    assert_eq!(file_filter("/a/b.rs"), "file_path = '/a/b.rs'");
    assert_eq!(file_filter("/a'b"), "file_path = '/a''b'");
    assert_eq!(file_filter("/a\"b\\c"), "file_path = '/a\"b\\c'");
    assert_eq!(type_filter("file"), "source_type = 'file'");
    assert_eq!(source_filter("file", "/a"), "source_type = 'file' AND source_id = '/a'");
    assert_eq!(source_filter("content", "a\\'b"), "source_type = 'content' AND source_id = 'a\\''b'");
    assert_eq!(escape_sql("'a\"b\\c''"), "''a\"b\\c''''");
}

#[test]
fn missing_tables_are_no_failure() {
    assert!(is_missing_table_error("x: Table 'chunks' was not found"));
    assert!(is_missing_table_error("Table 'sources' was not found."));
    assert!(is_missing_table_error("the table was not found"));
    assert!(is_missing_table_error("table not found"));
    assert!(!is_missing_table_error("Table 'others' was not found"));
    assert_eq!(chunk_table_failure("table not found"), None);
    assert_eq!(chunk_table_failure("locked"), Some("failed to open table: locked".to_string()));
}

#[test]
fn tables_have_fixed_columns() {
    let columns = chunk_columns(384);
    let told: Vec<(&str, ColumnKind, bool)> =
        columns.iter().map(|c| (c.name.as_str(), c.kind, c.nullable)).collect();
    assert_eq!(
        told,
        vec![
            ("chunk_id", ColumnKind::Text, false),
            ("file_path", ColumnKind::Text, false),
            ("language", ColumnKind::Text, false),
            ("node_kind", ColumnKind::Text, false),
            ("start_line", ColumnKind::Number, false),
            ("end_line", ColumnKind::Number, false),
            ("parent_context", ColumnKind::Text, true),
            ("text", ColumnKind::Text, false),
            ("embedding", ColumnKind::Vector(384), false),
        ]
    );
    assert_eq!(
        source_columns().iter().map(|c| c.name.clone()).collect::<Vec<_>>(),
        vec!["source_id", "source_type", "content_hash"]
    );
    assert_eq!(source_row("file", "/a", "hash"), vec!["/a", "file", "hash"]);
}

#[test]
fn chunks_become_columns() {
    let columns = build_record_batch(&vec![embedded("x", vec![1, 2]), embedded("y", vec![3, 4])]).unwrap();
    assert_eq!(columns.chunk_ids, vec!["x", "y"]);
    assert_eq!(columns.file_paths, vec!["/a", "/a"]);
    assert_eq!(columns.languages, vec!["rust", "rust"]);
    assert_eq!(columns.node_kinds, vec!["fn", "fn"]);
    assert_eq!(columns.start_lines, vec![3, 3]);
    assert_eq!(columns.end_lines, vec![4, 4]);
    assert_eq!(columns.parent_contexts, vec![Some("p".to_string()), Some("p".to_string())]);
    assert_eq!(columns.texts, vec!["text of x", "text of y"]);
    assert_eq!(columns.embeddings, vec![1, 2, 3, 4]);
    assert_eq!(columns.dimension, 2);
}

#[test]
fn line_numbers_are_cut_to_their_column() {
    let mut chunk = embedded("x", vec![1]);
    chunk.chunk.metadata.start_line = 4294967296 + 7;
    assert_eq!(build_record_batch(&vec![chunk]).unwrap().start_lines, vec![7]);
}

#[test]
fn uneven_vectors_are_refused() {
    assert_eq!(build_record_batch::<i32>(&Vec::new()).unwrap_err(), "no chunks to upsert");
    assert_eq!(build_record_batch(&vec![embedded("x", vec![])]).unwrap_err(), "embedding dimension is zero");
    assert_eq!(
        build_record_batch(&vec![embedded("x", vec![1]), embedded("y", vec![1, 2])]).unwrap_err(),
        "embedding dimension mismatch"
    );
}

#[test]
fn hashes_and_ids_are_read() {
    let column = |list: &[&str]| Column::Values(list.iter().map(|t| t.to_string()).collect::<Vec<String>>());
    assert_eq!(read_source_hash(&vec![column(&[]), column(&["h", "i"])]), Ok(Some("h".to_string())));
    assert_eq!(read_source_hash(&vec![column(&[])]), Ok(None));
    assert_eq!(read_source_hash(&vec![Column::Missing]).unwrap_err(), "missing content_hash column");
    assert_eq!(read_source_hash(&vec![Column::Mistyped]).unwrap_err(), "content_hash column type");
    assert_eq!(read_source_hash(&vec![column(&["h"]), Column::Missing]), Ok(Some("h".to_string())));
    assert_eq!(read_source_ids(&vec![column(&["a"]), column(&["b", "a"])]).unwrap(), vec!["a", "b", "a"]);
    assert_eq!(read_source_ids(&vec![Column::Missing]).unwrap_err(), "missing source_id column");
    assert_eq!(read_source_ids(&vec![Column::Mistyped]).unwrap_err(), "source_id column type");
}
