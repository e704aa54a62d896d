use mcp_search::content::{encode_external_metadata, inject_metadata_header, path_of_content, write_context};
use mcp_search::hashing::hash_text;
use mcp_search::indexer::{cleanup_removed_files, delete_file, hash_content, index_file, worker_count, IndexConfig};
use mcp_search::jobs::{
    advance, chunk_texts, pair_embeddings, remove_source, Job, JobEvent, JobState, Outcome, Removal,
};
use mcp_search::search::strip_chunk_header;
use mcp_search::types::{Chunk, ChunkMetadata};
use mcp_search::watcher::{ChangeKind, WatchAction, WatchState};

fn chunk(id: &str, text: &str, context: Option<&str>) -> Chunk {
    Chunk {
        id: id.to_string(),
        text: text.to_string(),
        metadata: ChunkMetadata {
            file_path: "/a".to_string(),
            language: "rust".to_string(),
            node_kind: "file".to_string(),
            start_line: 1,
            end_line: 1,
            parent_context: context.map(|c| c.to_string()),
        },
    }
}

fn content_job() -> Job {
    Job {
        source_type: "content".to_string(),
        source_id: "x".to_string(),
        path: "content://x".to_string(),
        hash: "new".to_string(),
        metadata: Some("{\"a\": 1}".to_string()),
        external: true,
    }
}

fn told(state: &JobState<u8>) -> String {
    format!("{:?}", state)
}

/// A table of sources: types, ids and hashes.
type Table = Vec<(String, String, String)>;

fn without(table: &Table, source_type: &str, id: &str) -> Table {
    table.iter().filter(|row| row.0 != source_type || row.1 != id).cloned().collect()
}

fn run(job: &Job, table: &mut Table) {
    let mut state: JobState<u8> = JobState::ReadHash;
    loop {
        let event = match &state {
            JobState::ReadHash => {
                let row = table.iter().find(|row| row.0 == job.source_type && row.1 == job.source_id);
                JobEvent::Hash(Ok(row.map(|row| row.2.clone())))
            },
            JobState::Cut => JobEvent::Chunks(Ok(vec![chunk("1", "t", None)])),
            JobState::Embed(_) => JobEvent::Vectors(Ok(vec![vec![7]])),
            JobState::DeleteHash(_) => {
                *table = without(table, &job.source_type, &job.source_id);
                JobEvent::Stored(Ok(()))
            },
            JobState::WriteHash(_) => {
                *table = without(table, &job.source_type, &job.source_id);
                table.push((job.source_type.clone(), job.source_id.clone(), job.hash.clone()));
                JobEvent::Stored(Ok(()))
            },
            JobState::Done(_) => return,
            _ => JobEvent::Stored(Ok(())),
        };
        state = advance(job, state, event);
    }
}

fn remove(source_type: &str, id: &str, table: &mut Table) {
    for step in remove_source(source_type, id, &path_of_content(id)) {
        if let Removal::Hash(source_type, id) = step {
            *table = without(table, &source_type, &id);
        }
    }
}

#[test]
fn the_last_updated_contents_are_listed_once() {
    let mut table: Table = Vec::new();
    let update = |id: &str, hash: &str| {
        let mut job = content_job();
        job.source_id = id.to_string();
        job.path = path_of_content(id);
        job.hash = hash.to_string();
        job
    };
    run(&update("a", "1"), &mut table);
    run(&update("b", "1"), &mut table);
    run(&index_file("/f", true, &Some("text".to_string())).unwrap(), &mut table);
    run(&update("a", "2"), &mut table);
    run(&update("a", "2"), &mut table);
    remove("content", "b", &mut table);
    run(&update("c", "1"), &mut table);
    remove("content", "c", &mut table);
    run(&update("c", "2"), &mut table);
    let listed: Vec<&str> =
        table.iter().filter(|row| row.0 == "content").map(|row| row.1.as_str()).collect();
    assert_eq!(listed, vec!["a", "c"]);
}

#[test]
fn a_changed_file_is_replaced() {
    let job = index_file("/a", true, &Some("text".to_string())).unwrap();
    assert_eq!(job.source_type, "file");
    assert_eq!(job.source_id, "/a");
    assert_eq!(job.path, "/a");
    assert_eq!(job.hash, hash_text("text"));
    let state: JobState<u8> = JobState::ReadHash;
    let state = advance(&job, state, JobEvent::Hash(Ok(Some("old".to_string()))));
    assert!(matches!(state, JobState::Cut));
    let state = advance(&job, state, JobEvent::Chunks(Ok(vec![chunk("1", "t", None)])));
    assert!(matches!(&state, JobState::Embed(chunks) if chunk_texts(chunks) == vec!["t"]));
    let state = advance(&job, state, JobEvent::Vectors(Ok(vec![vec![7]])));
    assert!(matches!(&state, JobState::DeleteChunks(chunks) if chunks[0].embedding == vec![7]));
    let state = advance(&job, state, JobEvent::Stored(Ok(())));
    assert!(matches!(&state, JobState::InsertChunks(chunks) if chunks[0].chunk.id == "1"));
    let state = advance(&job, state, JobEvent::Stored(Ok(())));
    assert!(matches!(state, JobState::WriteHash(1)));
    let state = advance(&job, state, JobEvent::Stored(Ok(())));
    assert!(matches!(&state, JobState::Done(Ok(Outcome::Written(1)))));
    let again = advance(&job, state, JobEvent::Hash(Ok(None)));
    assert!(matches!(again, JobState::Done(Ok(Outcome::Written(1)))));
}

#[test]
fn an_unchanged_source_is_left_alone() {
    let state: JobState<u8> = JobState::ReadHash;
    let state = advance(&content_job(), state, JobEvent::Hash(Ok(Some("new".to_string()))));
    assert!(matches!(state, JobState::Done(Ok(Outcome::Unchanged))));
}

#[test]
fn a_source_without_chunks_is_done() {
    let state: JobState<u8> = advance(&content_job(), JobState::Cut, JobEvent::Chunks(Ok(Vec::new())));
    assert!(matches!(state, JobState::Done(Ok(Outcome::NoChunks))));
}

#[test]
fn external_content_carries_its_metadata() {
    let job = content_job();
    let text = "FILE: content://x\nLANG: rust\n\nbody";
    let state: JobState<u8> =
        advance(&job, JobState::Cut, JobEvent::Chunks(Ok(vec![chunk("1", text, Some("a.b"))])));
    match &state {
        JobState::Embed(chunks) => {
            assert_eq!(chunks[0].text, "FILE: content://x\nLANG: rust\nMETA: {\"a\": 1}\n\nbody");
            assert_eq!(strip_chunk_header(&chunks[0].text), "body");
            assert_eq!(
                chunks[0].metadata.parent_context,
                Some("{\"external\":{\"a\":1},\"path\":\"a.b\"}".to_string())
            );
        }
        _ => panic!("{}", told(&state)),
    }
    let state = advance(&job, state, JobEvent::Vectors(Ok(vec![vec![1]])));
    let state = advance(&job, state, JobEvent::Stored(Ok(())));
    assert!(matches!(state, JobState::DeleteHash(_)));
    let state = advance(&job, state, JobEvent::Stored(Ok(())));
    assert!(matches!(state, JobState::InsertChunks(_)));
}

#[test]
fn a_failure_ends_the_job() {
    let job = content_job();
    let fail = || "why".to_string();
    let one = || pair_embeddings(vec![chunk("1", "t", None)], vec![vec![1u8]]).unwrap();
    let ends = vec![
        advance(&job, JobState::ReadHash, JobEvent::Hash(Err(fail()))),
        advance(&job, JobState::Cut, JobEvent::Chunks(Err(fail()))),
        advance(&job, JobState::Embed(Vec::new()), JobEvent::Vectors(Err(fail()))),
        advance(&job, JobState::DeleteChunks(one()), JobEvent::Stored(Err(fail()))),
        advance(&job, JobState::DeleteHash(one()), JobEvent::Stored(Err(fail()))),
        advance(&job, JobState::InsertChunks(one()), JobEvent::Stored(Err(fail()))),
        advance(&job, JobState::WriteHash(1), JobEvent::Stored(Err(fail()))),
    ];
    for end in ends {
        assert!(matches!(&end, JobState::Done(Err(message)) if message == "why"));
    }
    let state: JobState<u8> =
        advance(&job, JobState::Embed(vec![chunk("1", "t", None)]), JobEvent::Vectors(Ok(Vec::new())));
    assert!(matches!(&state, JobState::Done(Err(message)) if message == "embedding count mismatch"));
}

#[test]
fn other_events_change_nothing() {
    let state: JobState<u8> = advance(&content_job(), JobState::ReadHash, JobEvent::Stored(Ok(())));
    assert!(matches!(state, JobState::ReadHash));
}

#[test]
fn files_may_be_passed_over() {
    assert!(index_file("/a", false, &Some("text".to_string())).is_none());
    assert!(index_file("/a", true, &None).is_none());
    assert_eq!(hash_content("text"), hash_text("text"));
}

#[test]
fn removal_takes_chunks_then_hash() {
    let steps = delete_file("/a");
    assert_eq!(steps.len(), 2);
    assert!(matches!(&steps[0], Removal::Chunks(path) if path == "/a"));
    assert!(matches!(&steps[1], Removal::Hash(kind, id) if kind == "file" && id == "/a"));
}

#[test]
fn stale_files_are_found() {
    let texts = |list: &[&str]| list.iter().map(|t| t.to_string()).collect::<Vec<String>>();
    assert_eq!(cleanup_removed_files(&texts(&["/a", "/b", "/c"]), &texts(&["/b", "/d"])), vec!["/a", "/c"]);
    assert!(cleanup_removed_files(&texts(&["/a"]), &texts(&["/a"])).is_empty());
}

#[test]
fn at_least_one_worker_runs() {
    let config = |concurrency| IndexConfig { roots: Vec::new(), max_tokens: 1, overlap_tokens: 1, concurrency };
    assert_eq!(worker_count(&config(0)), 1);
    assert_eq!(worker_count(&config(6)), 6);
}

#[test]
fn external_metadata_is_written_compactly() {
    assert_eq!(encode_external_metadata(&None, "{\"b\": [1, 2.50], \"a\": null}"), "{\"external\":{\"a\":null,\"b\":[1,2.5]}}");
    assert_eq!(encode_external_metadata(&None, "not json"), "{\"external\":\"not json\"}");
    assert_eq!(
        encode_external_metadata(&Some("a\"b".to_string()), "1"),
        "{\"external\":1,\"path\":\"a\\\"b\"}"
    );
    assert_eq!(write_context(&Some("\"p\"".to_string()), "1"), "{\"external\":1,\"path\":\"p\"}");
}

#[test]
fn external_context_is_a_json_object() {
    let mut map = serde_json::Map::new();
    map.insert("path".to_string(), serde_json::Value::String("x/\u{1}\n".to_string()));
    map.insert("external".to_string(), serde_json::from_str("{\"z\":1,\"y\":\"\u{e9}\"}").unwrap());
    assert_eq!(
        encode_external_metadata(&Some("x/\u{1}\n".to_string()), "{\"z\":1,\"y\":\"\u{e9}\"}"),
        serde_json::Value::Object(map).to_string()
    );
}

#[test]
fn metadata_goes_into_the_header() {
    assert_eq!(inject_metadata_header("A: b\n\nbody\n\nrest", "m"), "A: b\nMETA: m\n\nbody\n\nrest");
    assert_eq!(inject_metadata_header("body", "m"), "META: m\n\nbody");
    assert_eq!(path_of_content("x y"), "content://x y");
}

#[test]
fn quick_changes_are_skipped() {
    let mut state = WatchState::new();
    let ms = 1_000_000u128;
    assert_eq!(state.observe("/a", false, ChangeKind::Changed, 0, 200), WatchAction::Index);
    assert_eq!(state.observe("/a", false, ChangeKind::Changed, 199 * ms, 200), WatchAction::Skip);
    assert_eq!(state.observe("/b", false, ChangeKind::Removed, 199 * ms, 200), WatchAction::Delete);
    assert_eq!(state.observe("/a", false, ChangeKind::Changed, 200 * ms, 200), WatchAction::Index);
    assert_eq!(state.observe("/a", false, ChangeKind::Changed, 399 * ms, 200), WatchAction::Skip);
    assert_eq!(state.observe("/a", false, ChangeKind::Other, 400 * ms, 200), WatchAction::Nothing);
    assert_eq!(state.observe("/a", false, ChangeKind::Changed, 400 * ms, 0), WatchAction::Index);
}

#[test]
fn a_removal_is_never_skipped() {
    let mut state = WatchState::new();
    assert_eq!(state.observe("/a", false, ChangeKind::Changed, 0, 200), WatchAction::Index);
    assert_eq!(state.observe("/a", false, ChangeKind::Removed, 1_000_000, 200), WatchAction::Delete);
}

#[test]
fn a_change_after_a_removal_counts() {
    let mut state = WatchState::new();
    let ms = 1_000_000u128;
    assert_eq!(state.observe("/a", false, ChangeKind::Changed, 0, 200), WatchAction::Index);
    assert_eq!(state.observe("/a", false, ChangeKind::Removed, ms, 200), WatchAction::Delete);
    assert_eq!(state.observe("/a", false, ChangeKind::Changed, 2 * ms, 200), WatchAction::Index);
    assert_eq!(state.observe("/a", false, ChangeKind::Changed, 3 * ms, 200), WatchAction::Skip);
    assert_eq!(state.observe("/a", false, ChangeKind::Removed, 4 * ms, 200), WatchAction::Delete);
    assert_eq!(state.observe("/a", false, ChangeKind::Removed, 4 * ms, 200), WatchAction::Delete);
    assert_eq!(state.observe("/a", false, ChangeKind::Changed, 4 * ms, 200), WatchAction::Index);
}

#[test]
fn directories_are_not_watched() {
    let mut state = WatchState::new();
    assert_eq!(state.observe("/a", true, ChangeKind::Changed, 0, 200), WatchAction::Skip);
    assert!(state.seen.is_empty());
}
