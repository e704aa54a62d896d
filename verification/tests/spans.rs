use mcp_search::lines::{can_cut, line_for_byte, line_start_for_byte, slice_source};
use mcp_search::sorting::sort_items;
use mcp_search::spans::{
    apply_overlap, estimate_tokens_from_len, fallback_chunk_spans, fits_limits, merge_spans,
    prune_contained_spans, span_contained_by, ChunkSpan,
};

fn span(start: usize, end: usize, first: usize, last: usize, kind: &str) -> ChunkSpan {
    ChunkSpan {
        start_byte: start,
        end_byte: end,
        start_line: first,
        end_line: last,
        node_kind: kind.to_string(),
    }
}

fn plain(spans: &[ChunkSpan]) -> Vec<(usize, usize, usize, usize, String)> {
    spans
        .iter()
        .map(|s| (s.start_byte, s.end_byte, s.start_line, s.end_line, s.node_kind.clone()))
        .collect()
}

#[test]
fn spans_of_one_rank_keep_their_order() {
    let spans: Vec<ChunkSpan> =
        (0..40).map(|i| span((i * 7) % 5, 100, i, i, "x")).collect();
    let sorted: Vec<(usize, usize)> =
        sort_items(spans, false).iter().map(|s| (s.start_byte, s.start_line)).collect();
    let mut expected: Vec<(usize, usize)> = (0..40).map(|i| ((i * 7) % 5, i)).collect();
    expected.sort();
    assert_eq!(sorted, expected);
    let sizes = vec![span(3, 5, 1, 1, "a"), span(9, 20, 2, 2, "b"), span(1, 3, 3, 3, "c")];
    let by_size: Vec<String> = sort_items(sizes, true).iter().map(|s| s.node_kind.clone()).collect();
    assert_eq!(by_size, vec!["b", "c", "a"]);
    assert!(sort_items(Vec::<ChunkSpan>::new(), true).is_empty());
}

#[test]
fn token_estimate_rounds_up() {
    assert_eq!(estimate_tokens_from_len(0), 0);
    assert_eq!(estimate_tokens_from_len(1), 1);
    assert_eq!(estimate_tokens_from_len(4), 1);
    assert_eq!(estimate_tokens_from_len(5), 2);
    assert_eq!(estimate_tokens_from_len(8), 2);
}

#[test]
fn fits_limits_checks_tokens() {
    assert!(fits_limits(3, 0));
    assert!(fits_limits(3, 4));
    assert!(!fits_limits(3, 2));
}

#[test]
fn token_estimate_of_the_largest_length() {
    assert_eq!(estimate_tokens_from_len(usize::MAX), usize::MAX / 4 + 1);
}

#[test]
fn short_text_is_one_span() {
    let spans = fallback_chunk_spans("a\nb\n", 0, 4, 1, 0, "file").unwrap();
    assert_eq!(plain(&spans), vec![(0, 4, 1, 2, "file".to_string())]);
    let empty = fallback_chunk_spans("", 0, 0, 1, 10, "file").unwrap();
    assert_eq!(plain(&empty), vec![(0, 0, 1, 1, "file".to_string())]);
}

#[test]
fn long_text_is_packed_by_lines() {
    let text = "aaaaaaa\nbbbbbbb\nccccccc\nddddddd\n";
    let spans = fallback_chunk_spans(text, 0, text.len(), 1, 4, "file").unwrap();
    assert_eq!(
        plain(&spans),
        vec![(0, 16, 1, 2, "file".to_string()), (16, 32, 3, 4, "file".to_string())]
    );
    for s in &spans {
        assert!(fits_limits(estimate_tokens_from_len(s.end_byte - s.start_byte), 4));
    }
}

#[test]
fn a_line_over_the_limit_is_cut() {
    let text = "short\nthis line is much longer than allowed\nend\n";
    let spans = fallback_chunk_spans(text, 0, text.len(), 1, 2, "file").unwrap();
    let pieces: Vec<String> =
        spans.iter().map(|s| slice_source(text, s.start_byte, s.end_byte)).collect();
    assert_eq!(
        pieces,
        vec!["short\n", "this lin", "e is muc", "h longer", " than al", "lowed\n", "end\n"]
    );
    assert_eq!(
        spans.iter().map(|s| (s.start_line, s.end_line)).collect::<Vec<_>>(),
        vec![(1, 1), (2, 2), (2, 2), (2, 2), (2, 2), (2, 2), (3, 3)]
    );
    let one = fallback_chunk_spans("aaaaaaaaaaaa", 0, 12, 1, 2, "file").unwrap();
    assert_eq!(one.iter().map(|s| (s.start_byte, s.end_byte)).collect::<Vec<_>>(), vec![(0, 8), (8, 12)]);
}

#[test]
fn characters_are_not_cut() {
    let cuts = |text: &str, max| {
        fallback_chunk_spans(text, 0, text.len(), 1, max, "file")
            .unwrap()
            .iter()
            .map(|s| (s.start_byte, s.end_byte))
            .collect::<Vec<_>>()
    };
    assert_eq!(cuts("\u{e9}\u{e9}\u{e9}\u{e9}\u{e9}", 1), vec![(0, 4), (4, 8), (8, 10)]);
    assert_eq!(cuts("\u{20ac}\u{20ac}\u{20ac}", 1), vec![(0, 3), (3, 6), (6, 9)]);
    assert_eq!(cuts("\u{1f600}\u{1f600}", 1), vec![(0, 4), (4, 8)]);
}

#[test]
fn spans_stand_one_behind_the_other() {
    for text in ["aaaaaaa\nbbbbbbb", "a\r\nbb\r\n\r\nccccccccccccccc\r\nd", "\n\n\n\n\n\n", "\u{e9}\n\u{20ac}x\n"] {
        for max in 1..6 {
            let spans = fallback_chunk_spans(text, 0, text.len(), 1, max, "file").unwrap();
            let mut at = 0;
            for s in &spans {
                assert_eq!(s.start_byte, at);
                assert!(fits_limits(estimate_tokens_from_len(s.end_byte - s.start_byte), max));
                assert_eq!(s.start_line, line_for_byte(text, s.start_byte));
                assert_eq!(s.end_line, line_for_byte(text, s.end_byte - 1));
                at = s.end_byte;
            }
            assert_eq!(at, text.len());
        }
    }
}

#[test]
fn each_run_tells_its_own_lines() {
    let text = "aaaaaaa\nbbbbbbb\nccccccc\n";
    let spans = fallback_chunk_spans(text, 0, text.len(), 1, 2, "file").unwrap();
    assert_eq!(
        plain(&spans),
        vec![
            (0, 8, 1, 1, "file".to_string()),
            (8, 16, 2, 2, "file".to_string()),
            (16, 24, 3, 3, "file".to_string()),
        ]
    );
}

#[test]
fn carriage_returns_belong_to_their_line() {
    let text = "aaaaaaa\r\nbbbbbbb\r\nccccccc\r\n";
    let spans = fallback_chunk_spans(text, 0, text.len(), 1, 3, "file").unwrap();
    assert_eq!(
        spans.iter().map(|s| (s.start_byte, s.end_byte)).collect::<Vec<_>>(),
        vec![(0, 9), (9, 18), (18, 27)]
    );
}

#[test]
fn a_range_inside_a_character_gives_nothing() {
    assert!(fallback_chunk_spans("äb", 1, 3, 1, 0, "file").is_none());
    assert!(fallback_chunk_spans("äb", 2, 3, 1, 0, "file").is_some());
    assert!(fallback_chunk_spans("äb", 7, 9, 1, 0, "file").is_some());
    assert!(!can_cut("äb", 1));
    assert!(can_cut("äb", 2));
    assert!(can_cut("äb", 99));
}

#[test]
fn slices_are_held_inside_the_text() {
    assert_eq!(slice_source("hello", 1, 3), "el");
    assert_eq!(slice_source("hello", 3, 99), "lo");
    assert_eq!(slice_source("hello", 4, 2), "");
    assert_eq!(slice_source("häß", 1, 3), "ä");
}

#[test]
fn lines_are_counted_from_one() {
    assert_eq!(line_for_byte("a\nb\nc", 0), 1);
    assert_eq!(line_for_byte("a\nb\nc", 2), 2);
    assert_eq!(line_for_byte("a\nb\nc", 99), 3);
    assert_eq!(line_start_for_byte("ab\ncd", 1), 0);
    assert_eq!(line_start_for_byte("ab\ncd", 4), 3);
    assert_eq!(line_start_for_byte("ab\ncd", 3), 3);
    assert_eq!(line_start_for_byte("ab\nä", 4), 3);
}

#[test]
fn neighbours_merge_while_they_fit() {
    let spans = vec![span(0, 4, 1, 1, "a"), span(4, 8, 2, 2, "b"), span(8, 40, 3, 9, "c")];
    let merged = merge_spans(spans, 2, "parent");
    assert_eq!(
        plain(&merged),
        vec![(0, 8, 1, 2, "parent".to_string()), (8, 40, 3, 9, "c".to_string())]
    );
    let same = merge_spans(vec![span(0, 4, 1, 1, "a"), span(0, 4, 1, 1, "b")], 2, "parent");
    assert_eq!(plain(&same), vec![(0, 4, 1, 1, "a".to_string())]);
    assert!(merge_spans(Vec::new(), 2, "parent").is_empty());
}

#[test]
fn contained_spans_are_pruned() {
    let spans = vec![
        span(5, 8, 1, 1, "inner"),
        span(0, 10, 1, 2, "outer"),
        span(20, 30, 3, 4, "apart"),
        span(20, 30, 3, 4, "again"),
        span(8, 15, 2, 3, "crossing"),
    ];
    let kept = prune_contained_spans(spans);
    assert_eq!(
        kept.iter().map(|s| s.node_kind.as_str()).collect::<Vec<_>>(),
        vec!["outer", "crossing", "apart"]
    );
    assert!(span_contained_by(&span(1, 2, 1, 1, "x"), &span(1, 2, 1, 1, "y")));
    assert!(!span_contained_by(&span(0, 2, 1, 1, "x"), &span(1, 2, 1, 1, "y")));
}

#[test]
fn overlap_reaches_back_to_the_start_of_a_line() {
    let text = "aaaa\nbbbb\ncccc\ndddd\n";
    let spans = vec![span(0, 10, 1, 2, "x"), span(10, 20, 3, 4, "x")];
    let out = apply_overlap(spans, text, 1, 0);
    assert_eq!(
        plain(&out),
        vec![(0, 10, 1, 2, "x".to_string()), (5, 20, 2, 4, "x".to_string())]
    );
}

#[test]
fn overlap_stays_below_the_limit() {
    let text = "aaaa\nbbbb\ncccc\ndddd\n";
    let spans = vec![span(0, 10, 1, 2, "x"), span(10, 20, 3, 4, "x")];
    let none = apply_overlap(spans.clone(), text, 9, 1);
    assert_eq!(plain(&none), plain(&spans));
    let some = apply_overlap(spans, text, 9, 2);
    assert_eq!(some[1].start_byte, 5);
}

#[test]
fn overlap_in_a_line_over_the_limit_is_short() {
    let text = "a".repeat(40);
    let spans = fallback_chunk_spans(&text, 0, 40, 1, 4, "file").unwrap();
    let out = apply_overlap(spans, &text, 1, 4);
    assert_eq!(
        out.iter().map(|s| (s.start_byte, s.end_byte)).collect::<Vec<_>>(),
        vec![(0, 16), (12, 32), (28, 40)]
    );
}

#[test]
fn overlap_into_a_character_goes_on_to_its_start() {
    let text = "äääää\nbb\n";
    let spans = vec![span(0, 11, 1, 1, "x"), span(11, 14, 2, 2, "x")];
    let starts = |out: Vec<ChunkSpan>| out.iter().map(|s| s.start_byte).collect::<Vec<_>>();
    assert_eq!(starts(apply_overlap(spans.clone(), text, 2, 0)), vec![0, 0]);
    assert_eq!(starts(apply_overlap(spans.clone(), text, 2, 3)), vec![0, 0]);
    assert_eq!(starts(apply_overlap(spans.clone(), text, 1, 2)), vec![0, 6]);
    assert_eq!(starts(apply_overlap(spans, text, 0, 0)), vec![0, 11]);
}
