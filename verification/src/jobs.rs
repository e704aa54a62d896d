//! The job of bringing the stored chunks of a source up to date: what is done
//! next, given what came of the step before.
use crate::content::{
    encode_external_metadata, external_context, inject_metadata_header, with_metadata,
};
use crate::text::same_text;
use crate::types::{text_view, Chunk, ChunkMetadata, ChunkView, EmbeddedChunk};
use vstd::prelude::*;

verus! {

/// A source whose chunks are to be brought up to date: a file or an external
/// content.
#[derive(Clone, Debug)]
pub struct Job {
    pub source_type: String,
    pub source_id: String,
    pub path: String,
    pub hash: String,
    pub metadata: Option<String>,
    pub external: bool,
}

/// What came of a job that did not fail.
#[derive(Clone, Copy, Debug, PartialEq, Eq, Structural)]
pub enum Outcome {
    Unchanged,
    NoChunks,
    Written(usize),
}

/// What is to be done next.
#[derive(Debug)]
pub enum JobState<E> {
    /// Read the stored hash of the source.
    ReadHash,
    /// Cut the source into chunks.
    Cut,
    /// Embed the texts of the chunks.
    Embed(Vec<Chunk>),
    /// Delete the stored chunks of the source.
    DeleteChunks(Vec<EmbeddedChunk<E>>),
    /// Delete the stored hash of the source.
    DeleteHash(Vec<EmbeddedChunk<E>>),
    /// Store the chunks.
    InsertChunks(Vec<EmbeddedChunk<E>>),
    /// Store the hash of the source.
    WriteHash(usize),
    /// Nothing.
    Done(Result<Outcome, String>),
}

/// What came of a step.
#[derive(Debug)]
pub enum JobEvent<E> {
    Hash(Result<Option<String>, String>),
    Chunks(Result<Vec<Chunk>, String>),
    Vectors(Result<Vec<Vec<E>>, String>),
    Stored(Result<(), String>),
}

/// A chunk with its id, as a mathematical value.
#[verifier::ext_equal]
pub struct NamedChunk {
    pub id: Seq<char>,
    pub chunk: ChunkView,
}

/// A chunk with its embedding, as a mathematical value.
#[verifier::ext_equal]
pub struct EmbeddedView<E> {
    pub id: Seq<char>,
    pub chunk: ChunkView,
    pub embedding: Seq<E>,
}

/// What is to be done next, as a mathematical value.
#[verifier::ext_equal]
pub enum StateView<E> {
    ReadHash,
    Cut,
    Embed(Seq<NamedChunk>),
    DeleteChunks(Seq<EmbeddedView<E>>),
    DeleteHash(Seq<EmbeddedView<E>>),
    InsertChunks(Seq<EmbeddedView<E>>),
    WriteHash(int),
    Done(Result<Outcome, Seq<char>>),
}

/// What came of a step, as a mathematical value.
#[verifier::ext_equal]
pub enum EventView<E> {
    Hash(Result<Option<Seq<char>>, Seq<char>>),
    Chunks(Result<Seq<NamedChunk>, Seq<char>>),
    Vectors(Result<Seq<Seq<E>>, Seq<char>>),
    Stored(Result<(), Seq<char>>),
}

/// Chunks with their ids, as mathematical values.
pub open spec fn named(chunks: Seq<Chunk>) -> Seq<NamedChunk> {
    Seq::new(chunks.len(), |i: int| (NamedChunk { id: chunks[i].id@, chunk: chunks[i]@ }))
}

/// Chunks with their embeddings, as mathematical values.
pub open spec fn embedded<E>(chunks: Seq<EmbeddedChunk<E>>) -> Seq<EmbeddedView<E>> {
    Seq::new(
        chunks.len(),
        |i: int|
            (EmbeddedView {
                id: chunks[i].chunk.id@,
                chunk: chunks[i].chunk@,
                embedding: chunks[i].embedding@,
            }),
    )
}

/// Vectors as mathematical values.
pub open spec fn vectors_view<E>(vectors: Seq<Vec<E>>) -> Seq<Seq<E>> {
    Seq::new(vectors.len(), |i: int| vectors[i]@)
}

impl<E> View for JobState<E> {
    type V = StateView<E>;

    open spec fn view(&self) -> StateView<E> {
        match *self {
            JobState::ReadHash => StateView::ReadHash,
            JobState::Cut => StateView::Cut,
            JobState::Embed(chunks) => StateView::Embed(named(chunks@)),
            JobState::DeleteChunks(chunks) => StateView::DeleteChunks(embedded(chunks@)),
            JobState::DeleteHash(chunks) => StateView::DeleteHash(embedded(chunks@)),
            JobState::InsertChunks(chunks) => StateView::InsertChunks(embedded(chunks@)),
            JobState::WriteHash(count) => StateView::WriteHash(count as int),
            JobState::Done(Ok(outcome)) => StateView::Done(Ok(outcome)),
            JobState::Done(Err(message)) => StateView::Done(Err(message@)),
        }
    }
}

impl<E> View for JobEvent<E> {
    type V = EventView<E>;

    open spec fn view(&self) -> EventView<E> {
        match *self {
            JobEvent::Hash(Ok(hash)) => EventView::Hash(Ok(text_view(hash))),
            JobEvent::Hash(Err(message)) => EventView::Hash(Err(message@)),
            JobEvent::Chunks(Ok(chunks)) => EventView::Chunks(Ok(named(chunks@))),
            JobEvent::Chunks(Err(message)) => EventView::Chunks(Err(message@)),
            JobEvent::Vectors(Ok(vectors)) => EventView::Vectors(Ok(vectors_view(vectors@))),
            JobEvent::Vectors(Err(message)) => EventView::Vectors(Err(message@)),
            JobEvent::Stored(Ok(done)) => EventView::Stored(Ok(done)),
            JobEvent::Stored(Err(message)) => EventView::Stored(Err(message@)),
        }
    }
}

/// A job as a mathematical value.
#[verifier::ext_equal]
pub struct JobView {
    pub source_type: Seq<char>,
    pub source_id: Seq<char>,
    pub path: Seq<char>,
    pub hash: Seq<char>,
    pub metadata: Option<Seq<char>>,
    pub external: bool,
}

impl View for Job {
    type V = JobView;

    open spec fn view(&self) -> JobView {
        JobView {
            source_type: self.source_type@,
            source_id: self.source_id@,
            path: self.path@,
            hash: self.hash@,
            metadata: text_view(self.metadata),
            external: self.external,
        }
    }
}

// ---------------------------------------------------------------------------
// Chunks with metadata
// ---------------------------------------------------------------------------

/// A chunk with the metadata of its source, if it has any: in its header and in
/// its context.
pub open spec fn marked(chunk: NamedChunk, metadata: Option<Seq<char>>) -> NamedChunk {
    match metadata {
        None => chunk,
        Some(metadata) => NamedChunk {
            chunk: ChunkView {
                text: with_metadata(chunk.chunk.text, metadata),
                context: Some(external_context(chunk.chunk.context, metadata)),
                ..chunk.chunk
            },
            ..chunk
        },
    }
}

/// Chunks with the metadata of their source.
pub open spec fn all_marked(chunks: Seq<NamedChunk>, metadata: Option<Seq<char>>) -> Seq<
    NamedChunk,
> {
    Seq::new(chunks.len(), |i: int| marked(chunks[i], metadata))
}

/// Adds the metadata of the source to chunks.
fn mark_chunks(chunks: Vec<Chunk>, metadata: &Option<String>) -> (out: Vec<Chunk>)
    ensures
        named(out@) == all_marked(named(chunks@), text_view(*metadata)),
{
    let ghost all = all_marked(named(chunks@), text_view(*metadata));
    match metadata {
        None => {
            assert(all =~= named(chunks@));
            chunks
        },
        Some(text) => {
            let mut out: Vec<Chunk> = Vec::new();
            let mut i: usize = 0;
            assert(named(out@) =~= all.take(0));
            while i < chunks.len()
                invariant
                    i <= chunks@.len(),
                    *metadata == Some(*text),
                    all == all_marked(named(chunks@), text_view(*metadata)),
                    named(out@) == all.take(i as int),
                decreases chunks@.len() - i,
            {
                let chunk = &chunks[i];
                let context = encode_external_metadata(
                    &chunk.metadata.parent_context,
                    text.as_str(),
                );
                let next = Chunk {
                    id: chunk.id.clone(),
                    text: inject_metadata_header(chunk.text.as_str(), text.as_str()),
                    metadata: ChunkMetadata {
                        file_path: chunk.metadata.file_path.clone(),
                        language: chunk.metadata.language.clone(),
                        node_kind: chunk.metadata.node_kind.clone(),
                        start_line: chunk.metadata.start_line,
                        end_line: chunk.metadata.end_line,
                        parent_context: Some(context),
                    },
                };
                proof {
                    assert(named(chunks@)[i as int].chunk == chunk@);
                    assert((NamedChunk { id: next.id@, chunk: next@ }) =~= all[i as int]);
                    assert(named(out@.push(next)) =~= named(out@).push(all[i as int]));
                    assert(all.take(i + 1) =~= all.take(i as int).push(all[i as int]));
                }
                out.push(next);
                i = i + 1;
            }
            assert(all.take(i as int) =~= all);
            out
        },
    }
}

// ---------------------------------------------------------------------------
// Embeddings
// ---------------------------------------------------------------------------

/// Each chunk with the vector at its place.
pub open spec fn paired<E>(chunks: Seq<NamedChunk>, vectors: Seq<Seq<E>>) -> Seq<EmbeddedView<E>> {
    Seq::new(
        chunks.len(),
        |i: int|
            (EmbeddedView {
                id: chunks[i].id,
                chunk: chunks[i].chunk,
                embedding: vectors[i],
            }),
    )
}

/// Gives each chunk the vector at its place. There have to be as many vectors as
/// chunks.
pub fn pair_embeddings<E>(chunks: Vec<Chunk>, vectors: Vec<Vec<E>>) -> (out: Result<
    Vec<EmbeddedChunk<E>>,
    String,
>)
    ensures
        match out {
            Ok(out) => {
                &&& chunks@.len() == vectors@.len()
                &&& embedded(out@) == paired(named(chunks@), vectors_view(vectors@))
            },
            Err(message) => {
                &&& chunks@.len() != vectors@.len()
                &&& message@ == "embedding count mismatch"@
            },
        },
{
    if vectors.len() != chunks.len() {
        return Err("embedding count mismatch".to_owned());
    }
    let ghost all = paired(named(chunks@), vectors_view(vectors@));
    let mut chunks_left = chunks;
    let mut vectors_left = vectors;
    let mut reversed: Vec<EmbeddedChunk<E>> = Vec::new();
    while chunks_left.len() > 0
        invariant
            chunks@.len() == vectors@.len() == all.len(),
            chunks_left@.len() == vectors_left@.len(),
            chunks_left@ == chunks@.take(chunks_left@.len() as int),
            vectors_left@ == vectors@.take(vectors_left@.len() as int),
            chunks_left@.len() + reversed@.len() == all.len(),
            all == paired(named(chunks@), vectors_view(vectors@)),
            forall|k: int|
                0 <= k < reversed@.len() ==> embedded(reversed@)[k] == #[trigger] all[all.len() - 1
                    - k],
        decreases chunks_left@.len(),
    {
        let ghost at = chunks_left@.len() - 1;
        let ghost before = reversed@;
        let ghost last_chunk = chunks_left@.last();
        let ghost last_vector = vectors_left@.last();
        match (chunks_left.pop(), vectors_left.pop()) {
            (Some(chunk), Some(embedding)) => {
                proof {
                    assert(chunk == chunks@[at]);
                    assert(embedding == vectors@[at]);
                    assert(chunks_left@ =~= chunks@.take(chunks_left@.len() as int));
                    assert(vectors_left@ =~= vectors@.take(vectors_left@.len() as int));
                }
                let pair = EmbeddedChunk { chunk, embedding };
                reversed.push(pair);
                proof {
                    assert(embedded(reversed@)[before.len() as int] == all[at]);
                    assert forall|k: int| 0 <= k < reversed@.len() implies embedded(reversed@)[k]
                        == #[trigger] all[all.len() - 1 - k] by {
                        if k < before.len() {
                            assert(embedded(before)[k] == all[all.len() - 1 - k]);
                            assert(embedded(reversed@)[k] == embedded(before)[k]);
                        }
                    }
                }
            },
            _ => {},
        }
    }
    let mut out: Vec<EmbeddedChunk<E>> = Vec::new();
    while reversed.len() > 0
        invariant
            reversed@.len() + out@.len() == all.len(),
            forall|k: int|
                0 <= k < reversed@.len() ==> embedded(reversed@)[k] == #[trigger] all[all.len() - 1
                    - k],
            forall|k: int| 0 <= k < out@.len() ==> embedded(out@)[k] == #[trigger] all[k],
        decreases reversed@.len(),
    {
        let ghost before = reversed@;
        let ghost done = out@;
        match reversed.pop() {
            Some(pair) => {
                proof {
                    let at = before.len() - 1;
                    assert(embedded(before)[at] == all[all.len() - 1 - at]);
                }
                out.push(pair);
                proof {
                    assert forall|k: int| 0 <= k < reversed@.len() implies embedded(reversed@)[k]
                        == #[trigger] all[all.len() - 1 - k] by {
                        assert(embedded(before)[k] == all[all.len() - 1 - k]);
                    }
                    assert forall|k: int| 0 <= k < out@.len() implies embedded(out@)[k]
                        == #[trigger] all[k] by {
                        if k < done.len() {
                            assert(embedded(done)[k] == all[k]);
                        }
                    }
                }
            },
            None => {},
        }
    }
    assert(embedded(out@) =~= all);
    Ok(out)
}

/// The texts of chunks, which are embedded.
pub fn chunk_texts(chunks: &Vec<Chunk>) -> (texts: Vec<String>)
    ensures
        crate::text::texts(texts@) == Seq::new(chunks@.len(), |i: int| chunks@[i].text@),
{
    let mut texts: Vec<String> = Vec::new();
    let ghost all = Seq::new(chunks@.len(), |i: int| chunks@[i].text@);
    let mut i: usize = 0;
    assert(crate::text::texts(texts@) =~= all.take(0));
    while i < chunks.len()
        invariant
            i <= chunks@.len(),
            all == Seq::new(chunks@.len(), |i: int| chunks@[i].text@),
            crate::text::texts(texts@) == all.take(i as int),
        decreases chunks@.len() - i,
    {
        let text = chunks[i].text.clone();
        proof {
            assert(crate::text::texts(texts@.push(text)) =~= crate::text::texts(texts@).push(
                text@,
            ));
            assert(all.take(i + 1) =~= all.take(i as int).push(all[i as int]));
        }
        texts.push(text);
        i = i + 1;
    }
    assert(all.take(i as int) =~= all);
    texts
}

// ---------------------------------------------------------------------------
// Steps
// ---------------------------------------------------------------------------

/// What is done after the stored hash was read: nothing where it is the hash of
/// the source, since then nothing changed.
pub open spec fn after_hash<E>(
    job: JobView,
    stored: Result<Option<Seq<char>>, Seq<char>>,
) -> StateView<E> {
    match stored {
        Err(message) => StateView::Done(Err(message)),
        Ok(hash) => if hash == Some(job.hash) {
            StateView::Done(Ok(Outcome::Unchanged))
        } else {
            StateView::Cut
        },
    }
}

/// What is done after the source was cut: nothing where there are no chunks.
pub open spec fn after_cut<E>(job: JobView, chunks: Result<Seq<NamedChunk>, Seq<char>>) -> StateView<
    E,
> {
    match chunks {
        Err(message) => StateView::Done(Err(message)),
        Ok(chunks) => if chunks.len() == 0 {
            StateView::Done(Ok(Outcome::NoChunks))
        } else {
            StateView::Embed(all_marked(chunks, job.metadata))
        },
    }
}

/// What is done after the chunks were embedded.
pub open spec fn after_embedding<E>(
    chunks: Seq<NamedChunk>,
    vectors: Result<Seq<Seq<E>>, Seq<char>>,
) -> StateView<E> {
    match vectors {
        Err(message) => StateView::Done(Err(message)),
        Ok(vectors) => if vectors.len() != chunks.len() {
            StateView::Done(Err("embedding count mismatch"@))
        } else {
            StateView::DeleteChunks(paired(chunks, vectors))
        },
    }
}

/// What is done after a step. The stored chunks of a source are deleted only
/// once the new ones are embedded, the new ones are stored behind that, and the
/// hash is stored last. An event that does not answer the step changes nothing.
pub open spec fn next_state<E>(job: JobView, state: StateView<E>, event: EventView<E>) -> StateView<
    E,
> {
    match (state, event) {
        (StateView::ReadHash, EventView::Hash(stored)) => after_hash(job, stored),
        (StateView::Cut, EventView::Chunks(chunks)) => after_cut(job, chunks),
        (StateView::Embed(chunks), EventView::Vectors(vectors)) => after_embedding(chunks, vectors),
        (StateView::DeleteChunks(chunks), EventView::Stored(done)) => match done {
            Err(message) => StateView::Done(Err(message)),
            Ok(_) => if job.external {
                StateView::DeleteHash(chunks)
            } else {
                StateView::InsertChunks(chunks)
            },
        },
        (StateView::DeleteHash(chunks), EventView::Stored(done)) => match done {
            Err(message) => StateView::Done(Err(message)),
            Ok(_) => StateView::InsertChunks(chunks),
        },
        (StateView::InsertChunks(chunks), EventView::Stored(done)) => match done {
            Err(message) => StateView::Done(Err(message)),
            Ok(_) => StateView::WriteHash(chunks.len() as int),
        },
        (StateView::WriteHash(count), EventView::Stored(done)) => match done {
            Err(message) => StateView::Done(Err(message)),
            Ok(_) => StateView::Done(Ok(Outcome::Written(count as usize))),
        },
        _ => state,
    }
}

/// Tells what is done after a step of a job.
pub fn advance<E>(job: &Job, state: JobState<E>, event: JobEvent<E>) -> (next: JobState<E>)
    ensures
        next@ == next_state(job@, state@, event@),
{
    match (state, event) {
        (JobState::ReadHash, JobEvent::Hash(stored)) => match stored {
            Err(message) => JobState::Done(Err(message)),
            Ok(Some(hash)) => if same_text(hash.as_str(), job.hash.as_str()) {
                JobState::Done(Ok(Outcome::Unchanged))
            } else {
                JobState::Cut
            },
            Ok(None) => JobState::Cut,
        },
        (JobState::Cut, JobEvent::Chunks(chunks)) => match chunks {
            Err(message) => JobState::Done(Err(message)),
            Ok(chunks) => {
                assert(named(chunks@).len() == chunks@.len());
                if chunks.len() == 0 {
                    JobState::Done(Ok(Outcome::NoChunks))
                } else {
                    JobState::Embed(mark_chunks(chunks, &job.metadata))
                }
            },
        },
        (JobState::Embed(chunks), JobEvent::Vectors(vectors)) => match vectors {
            Err(message) => JobState::Done(Err(message)),
            Ok(vectors) => {
                assert(named(chunks@).len() == chunks@.len());
                assert(vectors_view(vectors@).len() == vectors@.len());
                match pair_embeddings(chunks, vectors) {
                    Err(message) => JobState::Done(Err(message)),
                    Ok(pairs) => JobState::DeleteChunks(pairs),
                }
            },
        },
        (JobState::DeleteChunks(chunks), JobEvent::Stored(done)) => match done {
            Err(message) => JobState::Done(Err(message)),
            Ok(_) => if job.external {
                JobState::DeleteHash(chunks)
            } else {
                JobState::InsertChunks(chunks)
            },
        },
        (JobState::DeleteHash(chunks), JobEvent::Stored(done)) => match done {
            Err(message) => JobState::Done(Err(message)),
            Ok(_) => JobState::InsertChunks(chunks),
        },
        (JobState::InsertChunks(chunks), JobEvent::Stored(done)) => match done {
            Err(message) => JobState::Done(Err(message)),
            Ok(_) => JobState::WriteHash(chunks.len()),
        },
        (JobState::WriteHash(count), JobEvent::Stored(done)) => match done {
            Err(message) => JobState::Done(Err(message)),
            Ok(_) => JobState::Done(Ok(Outcome::Written(count))),
        },
        (state, _) => state,
    }
}

// ---------------------------------------------------------------------------
// Removing a source
// ---------------------------------------------------------------------------

/// A step that the store is asked for.
#[derive(Clone, Debug)]
pub enum Removal {
    /// Delete the chunks that are stored under a path.
    Chunks(String),
    /// Delete the stored hash of a source of a type.
    Hash(String, String),
}

/// A step that the store is asked for, as a mathematical value.
#[verifier::ext_equal]
pub enum RemovalView {
    Chunks(Seq<char>),
    Hash(Seq<char>, Seq<char>),
}

impl View for Removal {
    type V = RemovalView;

    open spec fn view(&self) -> RemovalView {
        match *self {
            Removal::Chunks(path) => RemovalView::Chunks(path@),
            Removal::Hash(source_type, source_id) => RemovalView::Hash(source_type@, source_id@),
        }
    }
}

/// What removes a source: first its chunks go, then its hash.
pub open spec fn removal(source_type: Seq<char>, source_id: Seq<char>, path: Seq<char>) -> Seq<
    RemovalView,
> {
    Seq::empty().push(RemovalView::Chunks(path)).push(RemovalView::Hash(source_type, source_id))
}

/// What removes a source, step by step. A step that fails ends it.
pub fn remove_source(source_type: &str, source_id: &str, path: &str) -> (steps: Vec<Removal>)
    ensures
        crate::sorting::views(steps@) == removal(source_type@, source_id@, path@),
{
    let mut steps: Vec<Removal> = Vec::new();
    steps.push(Removal::Chunks(path.to_owned()));
    steps.push(Removal::Hash(source_type.to_owned(), source_id.to_owned()));
    assert(crate::sorting::views(steps@) =~= removal(source_type@, source_id@, path@));
    steps
}

} // verus!
