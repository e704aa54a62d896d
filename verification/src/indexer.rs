//! Indexing files: which files are indexed again, and which are forgotten.
use crate::hashing::{hash_text, text_hash};
use crate::jobs::{removal, remove_source, Job, JobView, Removal};
use crate::sorting::views;
use crate::text::{contains_text, texts};
use vstd::prelude::*;

verus! {

/// What is indexed, and how.
#[derive(Clone, Debug)]
pub struct IndexConfig {
    pub roots: Vec<String>,
    pub max_tokens: usize,
    pub overlap_tokens: usize,
    pub concurrency: usize,
}

/// How many files are indexed at once: one at least.
pub fn worker_count(config: &IndexConfig) -> (count: usize)
    ensures
        count == if config.concurrency == 0 {
            1
        } else {
            config.concurrency
        },
{
    if config.concurrency == 0 {
        1
    } else {
        config.concurrency
    }
}

/// The hash of the text of a file.
pub fn hash_content(content: &str) -> (hash: String)
    ensures
        hash@ == text_hash(content@),
{
    hash_text(content)
}

/// The job of bringing the chunks of a file up to date.
pub open spec fn file_job(path: Seq<char>, source: Seq<char>) -> JobView {
    JobView {
        source_type: "file"@,
        source_id: path,
        path,
        hash: text_hash(source),
        metadata: None,
        external: false,
    }
}

/// Tells whether there is anything to do about a file: its language has to be
/// known, and its text has to be readable.
pub fn index_file(path: &str, language_known: bool, source: &Option<String>) -> (job: Option<Job>)
    ensures
        match job {
            Some(job) => language_known && match *source {
                Some(source) => job@ == file_job(path@, source@),
                None => false,
            },
            None => !language_known || source is None,
        },
{
    if !language_known {
        return None;
    }
    match source {
        None => None,
        Some(source) => Some(
            Job {
                source_type: "file".to_owned(),
                source_id: path.to_owned(),
                path: path.to_owned(),
                hash: hash_content(source.as_str()),
                metadata: None,
                external: false,
            },
        ),
    }
}

/// What removes a file: first its chunks go, then its hash.
pub fn delete_file(path: &str) -> (steps: Vec<Removal>)
    ensures
        views(steps@) == removal("file"@, path@, path@),
{
    remove_source("file", path, path)
}

/// The stored files that a scan did not find.
pub open spec fn stale(stored: Seq<Seq<char>>, seen: Seq<Seq<char>>) -> Seq<Seq<char>>
    decreases stored.len(),
{
    if stored.len() == 0 {
        stored
    } else if seen.contains(stored.last()) {
        stale(stored.drop_last(), seen)
    } else {
        stale(stored.drop_last(), seen).push(stored.last())
    }
}

/// Finds the stored files that a full scan did not find, which are to be
/// removed.
pub fn cleanup_removed_files(stored: &Vec<String>, seen: &Vec<String>) -> (gone: Vec<String>)
    ensures
        texts(gone@) == stale(texts(stored@), texts(seen@)),
{
    let ghost all = texts(stored@);
    let ghost found = texts(seen@);
    let mut gone: Vec<String> = Vec::new();
    let mut i: usize = 0;
    assert(texts(gone@) =~= stale(all.take(0), found));
    while i < stored.len()
        invariant
            i <= stored@.len(),
            all == texts(stored@),
            found == texts(seen@),
            texts(gone@) == stale(all.take(i as int), found),
        decreases stored@.len() - i,
    {
        proof {
            assert(all.take(i + 1).drop_last() =~= all.take(i as int));
            assert(all[i as int] == stored@[i as int]@);
            crate::store::lemma_lists_text(seen@, stored@[i as int]@);
        }
        if !contains_text(seen, stored[i].as_str()) {
            let ghost before = texts(gone@);
            gone.push(stored[i].clone());
            assert(texts(gone@) =~= before.push(all[i as int]));
        }
        i = i + 1;
    }
    assert(all.take(i as int) =~= all);
    gone
}

/// A full scan removes exactly the stored files that it did not find.
pub proof fn law_stale(stored: Seq<Seq<char>>, seen: Seq<Seq<char>>, path: Seq<char>)
    ensures
        stale(stored, seen).contains(path) <==> stored.contains(path) && !seen.contains(path),
    decreases stored.len(),
{
    if stored.len() > 0 {
        let before = stored.drop_last();
        let last = stored.last();
        let init = stale(before, seen);
        let all = stale(stored, seen);
        law_stale(before, seen, path);
        assert(stored[stored.len() - 1] == last);
        if before.contains(path) {
            let k = choose|k: int| 0 <= k < before.len() && before[k] == path;
            assert(stored[k] == path);
        }
        if stored.contains(path) && path != last {
            let k = choose|k: int| 0 <= k < stored.len() && stored[k] == path;
            assert(before[k] == path);
        }
        if !seen.contains(last) {
            assert(all[init.len() as int] == last);
            if init.contains(path) {
                let k = choose|k: int| 0 <= k < init.len() && init[k] == path;
                assert(all[k] == path);
            }
            if all.contains(path) {
                let k = choose|k: int| 0 <= k < all.len() && all[k] == path;
                if k < init.len() {
                    assert(init[k] == path);
                }
            }
        }
    }
}

} // verus!
