//! What holds of every job, whatever comes of its steps.
use crate::chunker::chunk_header;
use crate::content::{external_context, metadata_json, with_metadata};
use crate::hashing::{content_payload, text_hash};
use crate::indexer::stale;
use crate::jobs::{
    next_state, paired, removal, EmbeddedView, EventView, JobView, NamedChunk, Outcome, StateView,
};
use crate::json_text::json_quoted;
use crate::lines::bytes_of;
use crate::search::stripped;
use crate::search_laws::{
    header_lines, lemma_first_empty_line, lemma_header_lines, lemma_line, lemma_more_lines,
};
use crate::spans::Span;
use crate::text::{first_from, lemma_first_from, stands_at};
use crate::text_laws::{hex_value, law_hexadecimal_reads_back, power16};
use vstd::prelude::*;

verus! {

/// Where a job is after some events.
pub open spec fn run<E>(job: JobView, events: Seq<EventView<E>>) -> StateView<E>
    decreases events.len(),
{
    if events.len() == 0 {
        StateView::ReadHash
    } else {
        next_state(job, run(job, events.drop_last()), events.last())
    }
}

/// How far a job is.
pub open spec fn stage<E>(state: StateView<E>) -> int {
    match state {
        StateView::ReadHash => 0,
        StateView::Cut => 1,
        StateView::Embed(_) => 2,
        StateView::DeleteChunks(_) => 3,
        StateView::DeleteHash(_) => 4,
        StateView::InsertChunks(_) => 5,
        StateView::WriteHash(_) => 6,
        StateView::Done(_) => 7,
    }
}

/// A job that is done stays as it is.
pub proof fn law_done_is_final<E>(
    job: JobView,
    result: Result<Outcome, Seq<char>>,
    event: EventView<E>,
)
    ensures
        next_state(job, StateView::Done(result), event) == StateView::<E>::Done(result),
{
}

/// A step leads forward or changes nothing.
pub proof fn law_steps_lead_forward<E>(job: JobView, state: StateView<E>, event: EventView<E>)
    ensures
        next_state(job, state, event) == state || stage(next_state(job, state, event)) > stage(
            state,
        ),
{
}

/// Where the stored hash is the hash of the source, nothing is cut, embedded or
/// stored: the job is done, whatever comes behind.
pub proof fn law_unchanged_is_left_alone<E>(job: JobView, events: Seq<EventView<E>>)
    requires
        events.len() > 0,
        events[0] == EventView::<E>::Hash(Ok(Some(job.hash))),
    ensures
        run(job, events) == StateView::<E>::Done(Ok(Outcome::Unchanged)),
    decreases events.len(),
{
    let before = events.drop_last();
    if before.len() > 0 {
        assert(before[0] == events[0]);
        law_unchanged_is_left_alone(job, before);
    } else {
        assert(run(job, before) == StateView::<E>::ReadHash);
        assert(events.last() == events[0]);
    }
}

/// Whether an event is a failure that answers a step.
pub open spec fn fails<E>(state: StateView<E>, event: EventView<E>) -> Option<Seq<char>> {
    match (state, event) {
        (StateView::ReadHash, EventView::Hash(Err(message))) => Some(message),
        (StateView::Cut, EventView::Chunks(Err(message))) => Some(message),
        (StateView::Embed(_), EventView::Vectors(Err(message))) => Some(message),
        (StateView::DeleteChunks(_), EventView::Stored(Err(message))) => Some(message),
        (StateView::DeleteHash(_), EventView::Stored(Err(message))) => Some(message),
        (StateView::InsertChunks(_), EventView::Stored(Err(message))) => Some(message),
        (StateView::WriteHash(_), EventView::Stored(Err(message))) => Some(message),
        _ => None,
    }
}

/// A step that fails ends the job with its message.
pub proof fn law_failure_ends_job<E>(job: JobView, state: StateView<E>, event: EventView<E>)
    requires
        fails(state, event) is Some,
    ensures
        next_state(job, state, event) == StateView::<E>::Done(Err(fails(state, event)->0)),
{
}

/// Whether, at some point before `end` of a run, some chunks were next to be
/// stored in place of the old ones, and the old ones were deleted before.
pub open spec fn replaced_before<E>(
    job: JobView,
    events: Seq<EventView<E>>,
    chunks: Seq<EmbeddedView<E>>,
    end: int,
) -> bool {
    exists|i: int|
        0 <= i < end && #[trigger] run(job, events.take(i)) == StateView::DeleteChunks(chunks)
            && events[i] == EventView::<E>::Stored(Ok(()))
}

/// Whether, at some point before `end` of a run, some chunks were stored.
pub open spec fn stored_before<E>(
    job: JobView,
    events: Seq<EventView<E>>,
    chunks: Seq<EmbeddedView<E>>,
    end: int,
) -> bool {
    exists|i: int|
        0 <= i < end && #[trigger] run(job, events.take(i)) == StateView::InsertChunks(chunks)
            && events[i] == EventView::<E>::Stored(Ok(())) && replaced_before(
            job,
            events,
            chunks,
            i,
        )
}

/// What was before the end of a shorter run was before the end of a longer one.
proof fn lemma_replaced_longer<E>(
    job: JobView,
    events: Seq<EventView<E>>,
    chunks: Seq<EmbeddedView<E>>,
)
    requires
        events.len() > 0,
        replaced_before(job, events.drop_last(), chunks, events.len() - 1),
    ensures
        replaced_before(job, events, chunks, events.len() - 1),
        replaced_before(job, events, chunks, events.len() as int),
{
    let before = events.drop_last();
    let i = choose|i: int|
        0 <= i < before.len() && #[trigger] run(job, before.take(i)) == StateView::DeleteChunks(
            chunks,
        ) && before[i] == EventView::<E>::Stored(Ok(()));
    assert(before.take(i) =~= events.take(i));
    assert(run(job, events.take(i)) == StateView::DeleteChunks(chunks));
}

/// New chunks are stored only once the old ones were deleted, and there is a
/// hash to store only once the new chunks were stored.
pub proof fn law_replaced_then_stored<E>(job: JobView, events: Seq<EventView<E>>)
    ensures
        match run(job, events) {
            StateView::DeleteHash(chunks) => replaced_before(
                job,
                events,
                chunks,
                events.len() as int,
            ),
            StateView::InsertChunks(chunks) => replaced_before(
                job,
                events,
                chunks,
                events.len() as int,
            ),
            StateView::WriteHash(count) => exists|chunks: Seq<EmbeddedView<E>>|
                count == chunks.len() && #[trigger] stored_before(
                    job,
                    events,
                    chunks,
                    events.len() as int,
                ),
            _ => true,
        },
    decreases events.len(),
{
    if events.len() > 0 {
        let before = events.drop_last();
        let last = events.len() - 1;
        law_replaced_then_stored(job, before);
        assert(events.take(last) =~= before);
        match events.last() {
            EventView::Stored(Ok(done)) => {
                assert(done == ());
                assert(events[last] == EventView::<E>::Stored(Ok(())));
            },
            _ => {},
        }
        let earlier = run(job, before);
        match earlier {
            StateView::DeleteChunks(chunks) => {
                assert(run(job, events.take(last)) == StateView::DeleteChunks(chunks));
            },
            StateView::DeleteHash(chunks) => {
                lemma_replaced_longer(job, events, chunks);
            },
            StateView::InsertChunks(chunks) => {
                lemma_replaced_longer(job, events, chunks);
                assert(run(job, events.take(last)) == StateView::InsertChunks(chunks));
                if run(job, events) is WriteHash {
                    assert(stored_before(job, events, chunks, events.len() as int));
                }
            },
            StateView::WriteHash(count) => {
                let chunks = choose|chunks: Seq<EmbeddedView<E>>|
                    count == chunks.len() && #[trigger] stored_before(
                        job,
                        before,
                        chunks,
                        before.len() as int,
                    );
                let i = choose|i: int|
                    0 <= i < before.len() && #[trigger] run(job, before.take(i))
                        == StateView::InsertChunks(chunks) && before[i] == EventView::<E>::Stored(
                        Ok(()),
                    ) && replaced_before(job, before, chunks, i);
                assert(before.take(i) =~= events.take(i));
                assert(run(job, events.take(i)) == StateView::InsertChunks(chunks));
                let k = choose|k: int|
                    0 <= k < i && #[trigger] run(job, before.take(k)) == StateView::DeleteChunks(
                        chunks,
                    ) && before[k] == EventView::<E>::Stored(Ok(()));
                assert(before.take(k) =~= events.take(k));
                assert(run(job, events.take(k)) == StateView::DeleteChunks(chunks));
                assert(replaced_before(job, events, chunks, i));
                assert(stored_before(job, events, chunks, events.len() as int));
            },
            _ => {},
        }
    }
}

// ---------------------------------------------------------------------------
// Metadata
// ---------------------------------------------------------------------------

/// A search gives back what a chunk of an external content was cut from, also
/// where its header holds metadata, as long as nothing in the header breaks its
/// lines.
pub proof fn law_metadata_is_stripped(
    path: Seq<char>,
    language: Seq<char>,
    span: Span,
    context: Option<Seq<char>>,
    metadata: Seq<char>,
    body: Seq<char>,
)
    requires
        !path.contains('\n'),
        !language.contains('\n'),
        !span.kind.contains('\n'),
        context is Some ==> !(context->0).contains('\n'),
        !metadata.contains('\n'),
    ensures
        stripped(with_metadata(chunk_header(path, language, span, context) + body, metadata))
            == body,
{
    reveal_strlit("\n");
    reveal_strlit("\n\n");
    reveal_strlit("META: ");
    lemma_header_lines(path, language, span, context);
    let lines = header_lines(path, language, span, context);
    let text = chunk_header(path, language, span, context) + body;
    let pair = "\n\n"@;
    let at = lines.len() - 1;
    assert(text =~= lines + "\n"@ + body);
    assert(text.subrange(at, at + 2) =~= pair);
    assert(stands_at(text, pair, at));
    lemma_first_from(text, pair, 0);
    let found = first_from(text, pair, 0)->0;
    if found < at {
        assert(text.subrange(found, found + 2)[0] == pair[0]);
        assert(text.subrange(found, found + 2)[1] == pair[1]);
        assert(lines[found] == '\n');
        assert(lines[found + 1] == '\n');
    }
    let line = "META: "@ + metadata + "\n"@;
    lemma_line("META: "@, metadata);
    lemma_more_lines(lines, line);
    lemma_first_empty_line(lines + line, body);
    assert(with_metadata(text, metadata) =~= lines + line + "\n"@ + body);
}

/// A chunk whose header ends where `head` does gets its metadata as a line of its
/// own behind the header; what the header and the body say stays as it is.
pub proof fn law_metadata_is_added(head: Seq<char>, body: Seq<char>, metadata: Seq<char>)
    requires
        forall|k: int|
            0 <= k < head.len() - 1 ==> !(#[trigger] head[k] == '\n' && head[k + 1] == '\n'),
        head.len() > 0 ==> head.last() != '\n',
    ensures
        with_metadata(head + "\n\n"@ + body, metadata) == head + "\nMETA: "@ + metadata + "\n\n"@
            + body,
{
    reveal_strlit("\n");
    reveal_strlit("\n\n");
    reveal_strlit("META: ");
    reveal_strlit("\nMETA: ");
    let pair = "\n\n"@;
    let text = head + pair + body;
    let at = head.len() as int;
    assert(text.subrange(at, at + 2) =~= pair);
    assert(stands_at(text, pair, at));
    lemma_first_from(text, pair, 0);
    let found = first_from(text, pair, 0)->0;
    if found < at {
        assert(text.subrange(found, found + 2)[0] == pair[0]);
        assert(text.subrange(found, found + 2)[1] == pair[1]);
        assert(head[found] == '\n');
        if found + 1 < at {
            assert(head[found + 1] == '\n');
        }
    }
    assert("\n"@ + "META: "@ =~= "\nMETA: "@);
    assert(text.take(at) =~= head);
    assert(text.skip(at + 2) =~= body);
    assert(with_metadata(text, metadata) =~= head + "\nMETA: "@ + metadata + pair + body);
}

// ---------------------------------------------------------------------------
// Chunks on their way to the store
// ---------------------------------------------------------------------------

/// What is embedded are the chunks that the source was cut into, in their order:
/// each keeps its id, its place in the source and, without metadata, its text.
pub proof fn law_cut_chunks_are_embedded<E>(job: JobView, cut: Seq<NamedChunk>, i: int)
    requires
        0 <= i < cut.len(),
    ensures
        ({
            let next = next_state::<E>(job, StateView::Cut, EventView::Chunks(Ok(cut)));
            let sent = next->Embed_0;
            &&& next is Embed
            &&& sent.len() == cut.len()
            &&& sent[i].id == cut[i].id
            &&& sent[i].chunk.path == cut[i].chunk.path
            &&& sent[i].chunk.language == cut[i].chunk.language
            &&& sent[i].chunk.kind == cut[i].chunk.kind
            &&& sent[i].chunk.first_line == cut[i].chunk.first_line
            &&& sent[i].chunk.last_line == cut[i].chunk.last_line
            &&& job.metadata is None ==> sent[i].chunk == cut[i].chunk
            &&& job.metadata is Some ==> sent[i].chunk.text == with_metadata(
                cut[i].chunk.text,
                job.metadata->0,
            ) && sent[i].chunk.context == Some(
                external_context(cut[i].chunk.context, job.metadata->0),
            )
        }),
{
}

/// Each chunk gets the vector that the embedder answered for it: the one at its own
/// place, and no other.
pub proof fn law_chunks_get_their_vectors<E>(
    job: JobView,
    chunks: Seq<NamedChunk>,
    vectors: Seq<Seq<E>>,
    i: int,
)
    requires
        chunks.len() == vectors.len(),
        0 <= i < chunks.len(),
    ensures
        ({
            let next = next_state(job, StateView::Embed(chunks), EventView::Vectors(Ok(vectors)));
            let pairs = next->DeleteChunks_0;
            &&& next is DeleteChunks
            &&& pairs.len() == chunks.len()
            &&& pairs[i].id == chunks[i].id
            &&& pairs[i].chunk == chunks[i].chunk
            &&& pairs[i].embedding == vectors[i]
            &&& paired(chunks, vectors) == pairs
        }),
{
}

/// The chunks that are stored in the end are those that were embedded, with their
/// vectors: no step in between changes, drops or reorders any.
pub proof fn law_embedded_chunks_are_stored<E>(
    job: JobView,
    chunks: Seq<EmbeddedView<E>>,
    event: EventView<E>,
)
    ensures
        match next_state(job, StateView::DeleteChunks(chunks), event) {
            StateView::DeleteChunks(kept) => kept == chunks,
            StateView::DeleteHash(kept) => kept == chunks,
            StateView::InsertChunks(kept) => kept == chunks,
            StateView::Done(Err(_)) => true,
            _ => false,
        },
        match next_state(job, StateView::DeleteHash(chunks), event) {
            StateView::DeleteHash(kept) => kept == chunks,
            StateView::InsertChunks(kept) => kept == chunks,
            StateView::Done(Err(_)) => true,
            _ => false,
        },
        event == EventView::<E>::Stored(Ok(())) ==> next_state(
            job,
            StateView::InsertChunks(chunks),
            event,
        ) == StateView::<E>::WriteHash(chunks.len() as int),
{
}

// ---------------------------------------------------------------------------
// Hashes
// ---------------------------------------------------------------------------

/// A hash is written with thirty-two digits and is read back from them.
pub proof fn law_hash_reads_back(text: Seq<char>)
    ensures
        text_hash(text).len() == 32,
        hex_value(text_hash(text)) == crate::hashing::xxh3(bytes_of(text)),
{
    law_hexadecimal_reads_back(crate::hashing::xxh3(bytes_of(text)) as nat, 32);
    reveal_with_fuel(power16, 33);
    assert(power16(32) == 0x100000000000000000000000000000000);
}

/// What is hashed of an external content tells it apart from another one: whatever
/// differs, its language, its text or its metadata, what is hashed differs, as long
/// as a language is one line and the texts are without metadata or have the same
/// length.
pub proof fn law_payload_tells_apart(
    content: Seq<char>,
    language: Seq<char>,
    metadata: Option<Seq<char>>,
    other: Seq<char>,
    other_language: Seq<char>,
    other_metadata: Option<Seq<char>>,
)
    requires
        !language.contains('\n'),
        !other_language.contains('\n'),
        (metadata is None && other_metadata is None) || content.len() == other.len(),
        content_payload(content, language, metadata) == content_payload(
            other,
            other_language,
            other_metadata,
        ),
    ensures
        language == other_language,
        content == other,
        metadata == other_metadata,
{
    reveal_strlit("\n");
    let one = content_payload(content, language, metadata);
    let two = content_payload(other, other_language, other_metadata);
    let a = language.len() as int;
    let b = other_language.len() as int;
    assert(one[a] == '\n');
    assert(two[b] == '\n');
    if a < b {
        assert(other_language[a] == '\n');
        assert(other_language.contains('\n'));
    } else if b < a {
        assert(language[b] == '\n');
        assert(language.contains('\n'));
    }
    assert(language =~= one.take(a));
    assert(other_language =~= two.take(b));
    let c = content.len() as int;
    assert(one.len() == a + 1 + c + if metadata is Some {
        1 + (metadata->0).len()
    } else {
        0
    });
    assert(two.len() == b + 1 + other.len() + if other_metadata is Some {
        1 + (other_metadata->0).len()
    } else {
        0
    });
    assert(content =~= one.subrange(a + 1, a + 1 + c));
    assert(other =~= two.subrange(b + 1, b + 1 + c));
    match (metadata, other_metadata) {
        (Some(m), Some(n)) => {
            assert(m =~= one.skip(a + 2 + c));
            assert(n =~= two.skip(b + 2 + c));
        },
        _ => {},
    }
}

// ---------------------------------------------------------------------------
// What is told of a job
// ---------------------------------------------------------------------------

/// A job that stored chunks tells how many.
pub proof fn law_count_is_told<E>(job: JobView, chunks: Seq<EmbeddedView<E>>)
    requires
        chunks.len() <= usize::MAX,
    ensures
        ({
            let done = EventView::<E>::Stored(Ok(()));
            let stored = next_state(job, StateView::InsertChunks(chunks), done);
            let end = next_state(job, stored, done);
            end is Done && end->Done_0 is Ok && end->Done_0->Ok_0 is Written
                && end->Done_0->Ok_0->Written_0 == chunks.len()
        }),
{
}

/// A source is left alone exactly where its stored hash is its own.
pub proof fn law_hash_decides<E>(job: JobView, stored: Option<Seq<char>>)
    ensures
        ({
            let next = next_state(
                job,
                StateView::<E>::ReadHash,
                EventView::Hash(Ok(stored)),
            );
            &&& next is Done <==> stored is Some && stored->0 == job.hash
            &&& next is Done || next is Cut
        }),
{
}

/// The context of a chunk of an external content tells the metadata and, behind it,
/// the context path that the chunk had.
pub proof fn law_context_tells_metadata(path: Option<Seq<char>>, metadata: Seq<char>)
    ensures
        ({
            let told = external_context(path, metadata);
            let front = "{\"external\":"@ + metadata_json(metadata);
            &&& told.len() >= front.len()
            &&& told.take(front.len() as int) == front
            &&& told.skip(front.len() as int) == match path {
                Some(path) => ",\"path\":"@ + json_quoted(path) + "}"@,
                None => "}"@,
            }
        }),
{
    let told = external_context(path, metadata);
    let front = "{\"external\":"@ + metadata_json(metadata);
    assert(told.take(front.len() as int) =~= front);
    match path {
        Some(path) => {
            assert(told.skip(front.len() as int) =~= ",\"path\":"@ + json_quoted(path) + "}"@);
        },
        None => {
            assert(told.skip(front.len() as int) =~= "}"@);
        },
    }
}

/// A source is removed in two steps: what is stored under its path goes first, then
/// the hash that is stored for it.
pub proof fn law_removal_steps(source_type: Seq<char>, source_id: Seq<char>, path: Seq<char>)
    ensures
        ({
            let steps = removal(source_type, source_id, path);
            &&& steps.len() == 2
            &&& steps[0] is Chunks && steps[0]->Chunks_0 == path
            &&& steps[1] is Hash && steps[1]->Hash_0 == source_type && steps[1]->Hash_1 == source_id
        }),
{
}

/// The files that a scan did not find are told in the order in which they are stored,
/// and nothing else is.
pub proof fn law_stale_in_order(stored: Seq<Seq<char>>, seen: Seq<Seq<char>>)
    ensures
        stale(stored, seen) == stored.filter(|path: Seq<char>| !seen.contains(path)),
    decreases stored.len(),
{
    reveal(Seq::filter);
    if stored.len() > 0 {
        law_stale_in_order(stored.drop_last(), seen);
    } else {
        assert(stale(stored, seen) =~= stored.filter(|path: Seq<char>| !seen.contains(path)));
    }
}

/// Whether an event answers a step of a job.
pub open spec fn answers<E>(state: StateView<E>, event: EventView<E>) -> bool {
    match state {
        StateView::ReadHash => event is Hash,
        StateView::Cut => event is Chunks,
        StateView::Embed(_) => event is Vectors,
        StateView::DeleteChunks(_) => event is Stored,
        StateView::DeleteHash(_) => event is Stored,
        StateView::InsertChunks(_) => event is Stored,
        StateView::WriteHash(_) => event is Stored,
        StateView::Done(_) => false,
    }
}

/// What answers a step of a job leads on, and nothing else does. What succeeds leads to
/// the next step: a source that changed is cut, its chunks are embedded, the old ones
/// deleted, the new ones stored and then the hash.
pub proof fn law_job_goes_on<E>(job: JobView, state: StateView<E>, event: EventView<E>)
    ensures
        ({
            let next = next_state(job, state, event);
            &&& next != state <==> answers(state, event)
            &&& match (state, event) {
                (StateView::ReadHash, EventView::Hash(Ok(hash))) => hash != Some(job.hash)
                    ==> next is Cut,
                (StateView::Cut, EventView::Chunks(Ok(chunks))) => if chunks.len() > 0 {
                    next is Embed && next->Embed_0.len() == chunks.len()
                } else {
                    next == StateView::<E>::Done(Ok(Outcome::NoChunks))
                },
                (StateView::Embed(chunks), EventView::Vectors(Ok(vectors))) => if chunks.len()
                    == vectors.len() {
                    next is DeleteChunks && next->DeleteChunks_0.len() == chunks.len()
                } else {
                    next is Done && next->Done_0 is Err
                },
                (StateView::DeleteChunks(chunks), EventView::Stored(Ok(_))) => next
                    == if job.external {
                    StateView::DeleteHash(chunks)
                } else {
                    StateView::InsertChunks(chunks)
                },
                (StateView::DeleteHash(chunks), EventView::Stored(Ok(_))) => next
                    == StateView::InsertChunks(chunks),
                (StateView::InsertChunks(chunks), EventView::Stored(Ok(_))) => next is WriteHash,
                (StateView::WriteHash(count), EventView::Stored(Ok(_))) => next is Done
                    && next->Done_0 is Ok,
                _ => true,
            }
        }),
{
}

} // verus!
