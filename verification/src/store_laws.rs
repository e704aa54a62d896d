//! What jobs do to a store that carries out each step that it is asked for.
use crate::job_laws::stage;
use crate::jobs::{
    all_marked, next_state, paired, removal, EmbeddedView, EventView, JobView, NamedChunk, Outcome,
    RemovalView, StateView,
};
use vstd::prelude::*;

verus! {

/// A row of the table of sources: the type and the id of a source, and its hash.
#[verifier::ext_equal]
pub struct SourceRow {
    pub source: (Seq<char>, Seq<char>),
    pub hash: Seq<char>,
}

/// What a store holds: chunks, and the rows of the table of sources.
#[verifier::ext_equal]
pub struct StoreView<E> {
    pub chunks: Seq<EmbeddedView<E>>,
    pub sources: Seq<SourceRow>,
}

/// A store that holds nothing.
pub open spec fn empty_store<E>() -> StoreView<E> {
    StoreView { chunks: Seq::empty(), sources: Seq::empty() }
}

/// The rows that are not those of a source.
pub open spec fn without_source(rows: Seq<SourceRow>, source: (Seq<char>, Seq<char>)) -> Seq<
    SourceRow,
>
    decreases rows.len(),
{
    if rows.len() == 0 {
        rows
    } else if rows.last().source == source {
        without_source(rows.drop_last(), source)
    } else {
        without_source(rows.drop_last(), source).push(rows.last())
    }
}

/// The rows with that of a source written anew.
pub open spec fn with_source(
    rows: Seq<SourceRow>,
    source: (Seq<char>, Seq<char>),
    hash: Seq<char>,
) -> Seq<SourceRow> {
    without_source(rows, source).push(SourceRow { source, hash })
}

/// The ids of the sources of a type, as a query lists them: one for each row.
pub open spec fn listed(rows: Seq<SourceRow>, source_type: Seq<char>) -> Seq<Seq<char>>
    decreases rows.len(),
{
    if rows.len() == 0 {
        Seq::empty()
    } else if rows.last().source.0 == source_type {
        listed(rows.drop_last(), source_type).push(rows.last().source.1)
    } else {
        listed(rows.drop_last(), source_type)
    }
}

/// The chunks that are not stored under a path.
pub open spec fn without_path<E>(chunks: Seq<EmbeddedView<E>>, path: Seq<char>) -> Seq<
    EmbeddedView<E>,
>
    decreases chunks.len(),
{
    if chunks.len() == 0 {
        chunks
    } else if chunks.last().chunk.path == path {
        without_path(chunks.drop_last(), path)
    } else {
        without_path(chunks.drop_last(), path).push(chunks.last())
    }
}

/// The hash in the first of the rows of a source, if there is one.
pub open spec fn hash_in(rows: Seq<SourceRow>, source: (Seq<char>, Seq<char>)) -> Option<Seq<char>>
    decreases rows.len(),
{
    if rows.len() == 0 {
        None
    } else if rows[0].source == source {
        Some(rows[0].hash)
    } else {
        hash_in(rows.drop_first(), source)
    }
}

/// The stored hash of a source, if there is one.
pub open spec fn stored_hash<E>(store: StoreView<E>, source: (Seq<char>, Seq<char>)) -> Option<
    Seq<char>,
> {
    hash_in(store.sources, source)
}

/// The source of a job.
pub open spec fn source_of(job: JobView) -> (Seq<char>, Seq<char>) {
    (job.source_type, job.source_id)
}

/// What a step of a job does to a store.
pub open spec fn carried_out<E>(job: JobView, state: StateView<E>, store: StoreView<E>) -> StoreView<
    E,
> {
    match state {
        StateView::DeleteChunks(_) => StoreView {
            chunks: without_path(store.chunks, job.path),
            ..store
        },
        StateView::DeleteHash(_) => StoreView {
            sources: without_source(store.sources, source_of(job)),
            ..store
        },
        StateView::InsertChunks(chunks) => StoreView { chunks: store.chunks + chunks, ..store },
        StateView::WriteHash(_) => StoreView {
            sources: with_source(store.sources, source_of(job), job.hash),
            ..store
        },
        _ => store,
    }
}

/// What comes of a step of a job, where nothing fails: `cut` is what the source
/// is cut into, and `embed` gives the embeddings of chunks.
pub open spec fn reply<E>(
    job: JobView,
    state: StateView<E>,
    store: StoreView<E>,
    cut: Seq<NamedChunk>,
    embed: spec_fn(Seq<NamedChunk>) -> Seq<Seq<E>>,
) -> EventView<E> {
    match state {
        StateView::ReadHash => EventView::Hash(Ok(stored_hash(store, source_of(job)))),
        StateView::Cut => EventView::Chunks(Ok(cut)),
        StateView::Embed(chunks) => EventView::Vectors(Ok(embed(chunks))),
        _ => EventView::Stored(Ok(())),
    }
}

/// How a job ends, and what the store holds then, where nothing fails.
pub open spec fn worked<E>(
    job: JobView,
    state: StateView<E>,
    store: StoreView<E>,
    cut: Seq<NamedChunk>,
    embed: spec_fn(Seq<NamedChunk>) -> Seq<Seq<E>>,
) -> (StateView<E>, StoreView<E>)
    decreases 8 - stage(state),
{
    if state is Done {
        (state, store)
    } else {
        worked(
            job,
            next_state(job, state, reply(job, state, store, cut, embed)),
            carried_out(job, state, store),
            cut,
            embed,
        )
    }
}

/// A source that changed is stored anew: its old chunks are gone, its new ones
/// are there with its hash, and nothing else is touched.
pub proof fn law_changed_source_is_replaced<E>(
    job: JobView,
    store: StoreView<E>,
    cut: Seq<NamedChunk>,
    embed: spec_fn(Seq<NamedChunk>) -> Seq<Seq<E>>,
)
    requires
        stored_hash(store, source_of(job)) != Some(job.hash),
        0 < cut.len() <= usize::MAX,
        embed(all_marked(cut, job.metadata)).len() == cut.len(),
    ensures
        ({
            let chunks = all_marked(cut, job.metadata);
            worked(job, StateView::ReadHash, store, cut, embed) == (
                StateView::<E>::Done(Ok(Outcome::Written(cut.len() as usize))),
                StoreView {
                    chunks: without_path(store.chunks, job.path) + paired(chunks, embed(chunks)),
                    sources: with_source(store.sources, source_of(job), job.hash),
                },
            )
        }),
{
    reveal_with_fuel(worked, 9);
    let chunks = all_marked(cut, job.metadata);
    let pairs = paired(chunks, embed(chunks));
    let done = worked(job, StateView::ReadHash, store, cut, embed);
    assert(pairs.len() == cut.len());
    lemma_without_twice(store.sources, source_of(job));
}

/// Once a source was stored anew, what is stored under its path are its new
/// chunks and no others, as long as they are cut for that path.
pub proof fn law_only_new_chunks_are_left<E>(
    job: JobView,
    store: StoreView<E>,
    cut: Seq<NamedChunk>,
    embed: spec_fn(Seq<NamedChunk>) -> Seq<Seq<E>>,
    chunk: EmbeddedView<E>,
)
    requires
        stored_hash(store, source_of(job)) != Some(job.hash),
        0 < cut.len() <= usize::MAX,
        embed(all_marked(cut, job.metadata)).len() == cut.len(),
        forall|i: int| 0 <= i < cut.len() ==> (#[trigger] cut[i]).chunk.path == job.path,
    ensures
        ({
            let chunks = all_marked(cut, job.metadata);
            let left = worked(job, StateView::ReadHash, store, cut, embed).1.chunks;
            &&& chunk.chunk.path == job.path ==> (left.contains(chunk) <==> paired(
                chunks,
                embed(chunks),
            ).contains(chunk))
            &&& chunk.chunk.path != job.path ==> (left.contains(chunk) <==> store.chunks.contains(
                chunk,
            ))
        }),
{
    law_changed_source_is_replaced(job, store, cut, embed);
    lemma_without_path(store.chunks, job.path, chunk);
    let chunks = all_marked(cut, job.metadata);
    let fresh = paired(chunks, embed(chunks));
    let kept = without_path(store.chunks, job.path);
    let left = worked(job, StateView::ReadHash, store, cut, embed).1.chunks;
    assert(left == kept + fresh);
    assert forall|i: int| 0 <= i < fresh.len() implies (#[trigger] fresh[i]).chunk.path
        == job.path by {
        assert(cut[i].chunk.path == job.path);
    }
    if kept.contains(chunk) {
        let k = choose|k: int| 0 <= k < kept.len() && kept[k] == chunk;
        assert(left[k] == chunk);
    }
    if fresh.contains(chunk) {
        let k = choose|k: int| 0 <= k < fresh.len() && fresh[k] == chunk;
        assert(left[kept.len() + k] == chunk);
    }
    if left.contains(chunk) {
        let k = choose|k: int| 0 <= k < left.len() && left[k] == chunk;
        if k < kept.len() {
            assert(kept[k] == chunk);
        } else {
            assert(fresh[k - kept.len()] == chunk);
        }
    }
}

/// Where the embedder gives each text a vector of its own, whatever is stored with
/// it, every chunk that is newly stored has the vector of its own text, and what
/// was stored before keeps the one that it had.
pub proof fn law_stored_chunks_have_their_own_vectors<E>(
    job: JobView,
    store: StoreView<E>,
    cut: Seq<NamedChunk>,
    embed: spec_fn(Seq<NamedChunk>) -> Seq<Seq<E>>,
    vector: spec_fn(Seq<char>) -> Seq<E>,
)
    requires
        stored_hash(store, source_of(job)) != Some(job.hash),
        0 < cut.len() <= usize::MAX,
        forall|chunks: Seq<NamedChunk>, i: int|
            #![trigger embed(chunks)[i]]
            embed(chunks).len() == chunks.len() && (0 <= i < chunks.len() ==> embed(chunks)[i]
                == vector(chunks[i].chunk.text)),
    ensures
        ({
            let left = worked(job, StateView::ReadHash, store, cut, embed).1.chunks;
            &&& forall|k: int|
                0 <= k < left.len() ==> store.chunks.contains(#[trigger] left[k])
                    || left[k].embedding == vector(left[k].chunk.text)
            &&& forall|i: int|
                0 <= i < cut.len() ==> exists|k: int|
                    0 <= k < left.len() && (#[trigger] left[k]).id == (#[trigger] cut[i]).id
                        && left[k].chunk.first_line == cut[i].chunk.first_line
                        && left[k].chunk.last_line == cut[i].chunk.last_line
                        && left[k].chunk.kind == cut[i].chunk.kind
                        && left[k].chunk.path == cut[i].chunk.path && (job.metadata is None
                        ==> left[k].chunk == cut[i].chunk) && left[k].embedding == vector(
                        left[k].chunk.text,
                    )
        }),
{
    let chunks = all_marked(cut, job.metadata);
    let vectors = embed(chunks);
    assert(chunks.len() == cut.len());
    assert(vectors[0] == vector(chunks[0].chunk.text));
    law_changed_source_is_replaced(job, store, cut, embed);
    let kept = without_path(store.chunks, job.path);
    let fresh = paired(chunks, vectors);
    let left = worked(job, StateView::ReadHash, store, cut, embed).1.chunks;
    assert(left == kept + fresh);
    assert forall|k: int| 0 <= k < left.len() implies store.chunks.contains(#[trigger] left[k])
        || left[k].embedding == vector(left[k].chunk.text) by {
        if k < kept.len() {
            lemma_without_path(store.chunks, job.path, left[k]);
            assert(kept.contains(kept[k]));
        } else {
            assert(left[k] == fresh[k - kept.len()]);
            assert(vectors[k - kept.len()] == vector(chunks[k - kept.len()].chunk.text));
        }
    }
    assert forall|i: int| 0 <= i < cut.len() implies exists|k: int|
        0 <= k < left.len() && (#[trigger] left[k]).id == (#[trigger] cut[i]).id
            && left[k].chunk.first_line == cut[i].chunk.first_line && left[k].chunk.last_line
            == cut[i].chunk.last_line && left[k].chunk.kind == cut[i].chunk.kind
            && left[k].chunk.path == cut[i].chunk.path && (job.metadata is None ==> left[k].chunk
            == cut[i].chunk) && left[k].embedding == vector(left[k].chunk.text) by {
        let k = kept.len() + i;
        assert(left[k] == fresh[i]);
        assert(vectors[i] == vector(chunks[i].chunk.text));
        assert(chunks[i] == crate::jobs::marked(cut[i], job.metadata));
    }
}

/// A source that did not change is left alone, with the store as it is.
pub proof fn law_unchanged_source_is_kept<E>(
    job: JobView,
    store: StoreView<E>,
    cut: Seq<NamedChunk>,
    embed: spec_fn(Seq<NamedChunk>) -> Seq<Seq<E>>,
)
    requires
        stored_hash(store, source_of(job)) == Some(job.hash),
    ensures
        worked(job, StateView::ReadHash, store, cut, embed) == (
            StateView::<E>::Done(Ok(Outcome::Unchanged)),
            store,
        ),
{
    reveal_with_fuel(worked, 3);
}

/// A job that is done a second time changes nothing more.
pub proof fn law_second_time_changes_nothing<E>(
    job: JobView,
    store: StoreView<E>,
    cut: Seq<NamedChunk>,
    embed: spec_fn(Seq<NamedChunk>) -> Seq<Seq<E>>,
)
    requires
        0 < cut.len() <= usize::MAX,
        embed(all_marked(cut, job.metadata)).len() == cut.len(),
    ensures
        ({
            let first = worked(job, StateView::ReadHash, store, cut, embed).1;
            worked(job, StateView::ReadHash, first, cut, embed) == (
                StateView::<E>::Done(Ok(Outcome::Unchanged)),
                first,
            )
        }),
{
    if stored_hash(store, source_of(job)) == Some(job.hash) {
        law_unchanged_source_is_kept(job, store, cut, embed);
    } else {
        law_changed_source_is_replaced(job, store, cut, embed);
        lemma_hash_with(store.sources, source_of(job), job.hash);
        let first = worked(job, StateView::ReadHash, store, cut, embed).1;
        law_unchanged_source_is_kept(job, first, cut, embed);
    }
}

/// What a step of a removal does to a store.
pub open spec fn removed<E>(step: RemovalView, store: StoreView<E>) -> StoreView<E> {
    match step {
        RemovalView::Chunks(path) => StoreView {
            chunks: without_path(store.chunks, path),
            ..store
        },
        RemovalView::Hash(source_type, source_id) => StoreView {
            sources: without_source(store.sources, (source_type, source_id)),
            ..store
        },
    }
}

/// What is stored under no path but another is kept.
proof fn lemma_without_path<E>(chunks: Seq<EmbeddedView<E>>, path: Seq<char>, chunk: EmbeddedView<E>)
    ensures
        without_path(chunks, path).contains(chunk) <==> chunks.contains(chunk) && chunk.chunk.path
            != path,
    decreases chunks.len(),
{
    if chunks.len() > 0 {
        let before = chunks.drop_last();
        let last = chunks.last();
        let init = without_path(before, path);
        let all = without_path(chunks, path);
        lemma_without_path(before, path, chunk);
        assert(chunks[chunks.len() - 1] == last);
        if before.contains(chunk) {
            let k = choose|k: int| 0 <= k < before.len() && before[k] == chunk;
            assert(chunks[k] == chunk);
        }
        if chunks.contains(chunk) && chunk != last {
            let k = choose|k: int| 0 <= k < chunks.len() && chunks[k] == chunk;
            assert(before[k] == chunk);
        }
        if last.chunk.path != path {
            assert(all[init.len() as int] == last);
            if init.contains(chunk) {
                let k = choose|k: int| 0 <= k < init.len() && init[k] == chunk;
                assert(all[k] == chunk);
            }
            if all.contains(chunk) {
                let k = choose|k: int| 0 <= k < all.len() && all[k] == chunk;
                if k < init.len() {
                    assert(init[k] == chunk);
                }
            }
        }
    }
}

/// Once a source is removed, no chunk is stored under its path and its hash is
/// gone; all other chunks and hashes are still there.
pub proof fn law_removed_source_is_gone<E>(
    store: StoreView<E>,
    source_type: Seq<char>,
    source_id: Seq<char>,
    path: Seq<char>,
    chunk: EmbeddedView<E>,
    other: (Seq<char>, Seq<char>),
)
    ensures
        ({
            let steps = removal(source_type, source_id, path);
            let left = removed(steps[1], removed(steps[0], store));
            &&& left.chunks.contains(chunk) <==> store.chunks.contains(chunk) && chunk.chunk.path
                != path
            &&& stored_hash(left, other) == if other == (source_type, source_id) {
                None
            } else {
                stored_hash(store, other)
            }
        }),
{
    lemma_without_path(store.chunks, path, chunk);
    lemma_hash_without(store.sources, (source_type, source_id), other);
}

// ---------------------------------------------------------------------------
// Rows of sources
// ---------------------------------------------------------------------------

/// To take the rows of a source out twice is to take them out once.
proof fn lemma_without_twice(rows: Seq<SourceRow>, source: (Seq<char>, Seq<char>))
    ensures
        without_source(without_source(rows, source), source) == without_source(rows, source),
    decreases rows.len(),
{
    if rows.len() > 0 {
        let before = without_source(rows.drop_last(), source);
        lemma_without_twice(rows.drop_last(), source);
        if rows.last().source != source {
            assert(before.push(rows.last()).drop_last() =~= before);
        }
    }
}

/// What is found in rows with one more behind them.
proof fn lemma_hash_push(rows: Seq<SourceRow>, row: SourceRow, source: (Seq<char>, Seq<char>))
    ensures
        hash_in(rows.push(row), source) == match hash_in(rows, source) {
            Some(hash) => Some(hash),
            None => if row.source == source {
                Some(row.hash)
            } else {
                None
            },
        },
    decreases rows.len(),
{
    let more = rows.push(row);
    if rows.len() == 0 {
        assert(hash_in(more.drop_first(), source) is None);
    } else {
        assert(more[0] == rows[0]);
        assert(more.drop_first() =~= rows.drop_first().push(row));
        lemma_hash_push(rows.drop_first(), row, source);
    }
}

/// Without the rows of a source, its hash is gone and the others are there.
proof fn lemma_hash_without(
    rows: Seq<SourceRow>,
    source: (Seq<char>, Seq<char>),
    other: (Seq<char>, Seq<char>),
)
    ensures
        hash_in(without_source(rows, source), other) == if other == source {
            None
        } else {
            hash_in(rows, other)
        },
    decreases rows.len(),
{
    if rows.len() > 0 {
        let before = rows.drop_last();
        lemma_hash_without(before, source, other);
        lemma_hash_push(before, rows.last(), other);
        assert(before.push(rows.last()) =~= rows);
        if rows.last().source != source {
            lemma_hash_push(without_source(before, source), rows.last(), other);
        }
    }
}

/// A source that is written anew has its new hash.
proof fn lemma_hash_with(rows: Seq<SourceRow>, source: (Seq<char>, Seq<char>), hash: Seq<char>)
    ensures
        hash_in(with_source(rows, source, hash), source) == Some(hash),
{
    lemma_hash_without(rows, source, source);
    lemma_hash_push(without_source(rows, source), SourceRow { source, hash }, source);
}

/// No source has two rows.
spec fn rows_differ(rows: Seq<SourceRow>) -> bool {
    forall|i: int, j: int|
        0 <= i < j < rows.len() ==> (#[trigger] rows[i]).source != (#[trigger] rows[j]).source
}

/// The rows without those of a source are some of the rows, and none of that
/// source.
proof fn lemma_rows_without(rows: Seq<SourceRow>, source: (Seq<char>, Seq<char>))
    requires
        rows_differ(rows),
    ensures
        rows_differ(without_source(rows, source)),
        forall|i: int|
            0 <= i < without_source(rows, source).len() ==> {
                &&& (#[trigger] without_source(rows, source)[i]).source != source
                &&& rows.contains(without_source(rows, source)[i])
            },
    decreases rows.len(),
{
    if rows.len() > 0 {
        let before = rows.drop_last();
        assert(rows_differ(before));
        lemma_rows_without(before, source);
        let kept = without_source(before, source);
        let left = without_source(rows, source);
        assert forall|i: int| 0 <= i < left.len() implies (#[trigger] left[i]).source != source
            && rows.contains(left[i]) by {
            if i < kept.len() {
                assert(left[i] == kept[i]);
                let k = choose|k: int| 0 <= k < before.len() && before[k] == kept[i];
                assert(rows[k] == left[i]);
            } else {
                assert(rows[rows.len() - 1] == left[i]);
            }
        }
        if rows.last().source != source {
            assert forall|i: int, j: int| 0 <= i < j < left.len() implies (#[trigger] left[i]).source
                != (#[trigger] left[j]).source by {
                assert(left[i] == kept[i]);
                if j < kept.len() {
                    assert(left[j] == kept[j]);
                } else {
                    let k = choose|k: int| 0 <= k < before.len() && before[k] == kept[i];
                    assert(rows[k] == left[i]);
                    assert(rows[rows.len() - 1] == left[j]);
                }
            }
        }
    }
}

/// With a source written anew, still no source has two rows.
proof fn lemma_rows_with(rows: Seq<SourceRow>, source: (Seq<char>, Seq<char>), hash: Seq<char>)
    requires
        rows_differ(rows),
    ensures
        rows_differ(with_source(rows, source, hash)),
{
    lemma_rows_without(rows, source);
}

/// The ids that are listed are those of the sources that have a hash, each once.
proof fn lemma_listed(rows: Seq<SourceRow>, source_type: Seq<char>, id: Seq<char>)
    requires
        rows_differ(rows),
    ensures
        listed(rows, source_type).no_duplicates(),
        listed(rows, source_type).contains(id) <==> hash_in(rows, (source_type, id)) is Some,
    decreases rows.len(),
{
    let ids = listed(rows, source_type);
    if rows.len() > 0 {
        let before = rows.drop_last();
        let last = rows.last();
        let init = listed(before, source_type);
        assert(rows_differ(before));
        lemma_listed(before, source_type, id);
        assert(before.push(last) =~= rows);
        lemma_hash_push(before, last, (source_type, id));
        if last.source.0 == source_type {
            lemma_listed(before, source_type, last.source.1);
            lemma_no_hash(before, last.source);
            assert(!init.contains(last.source.1));
            assert forall|i: int, j: int| 0 <= i < ids.len() && 0 <= j < ids.len() && i
                != j implies ids[i] != ids[j] by {
                if i < init.len() {
                    assert(ids[i] == init[i]);
                }
                if j < init.len() {
                    assert(ids[j] == init[j]);
                }
            }
            if init.contains(id) {
                let k = choose|k: int| 0 <= k < init.len() && init[k] == id;
                assert(ids[k] == id);
            }
            if ids.contains(id) {
                let k = choose|k: int| 0 <= k < ids.len() && ids[k] == id;
                if k < init.len() {
                    assert(init[k] == id);
                }
            }
            assert(ids[init.len() as int] == last.source.1);
        }
    }
}

/// A source that no row is of has no hash.
proof fn lemma_no_hash(rows: Seq<SourceRow>, source: (Seq<char>, Seq<char>))
    requires
        forall|i: int| 0 <= i < rows.len() ==> (#[trigger] rows[i]).source != source,
    ensures
        hash_in(rows, source) is None,
    decreases rows.len(),
{
    if rows.len() > 0 {
        lemma_no_hash(rows.drop_first(), source);
    }
}

// ---------------------------------------------------------------------------
// Calls, one after the other
// ---------------------------------------------------------------------------

/// A call that succeeds: a source is brought up to date, or removed. `cut` is
/// what a source is cut into, and `embed` gives the embeddings of chunks.
pub enum SourceCall<E> {
    Update(JobView, Seq<NamedChunk>, spec_fn(Seq<NamedChunk>) -> Seq<Seq<E>>),
    Remove(Seq<char>, Seq<char>, Seq<char>),
}

/// The source that a call is about.
pub open spec fn called_for<E>(call: SourceCall<E>) -> (Seq<char>, Seq<char>) {
    match call {
        SourceCall::Update(job, _, _) => source_of(job),
        SourceCall::Remove(source_type, source_id, _) => (source_type, source_id),
    }
}

/// Whether a source that is brought up to date is cut into chunks, and there is
/// an embedding for each.
pub open spec fn call_holds<E>(call: SourceCall<E>) -> bool {
    match call {
        SourceCall::Update(job, cut, embed) => {
            &&& 0 < cut.len() <= usize::MAX
            &&& embed(all_marked(cut, job.metadata)).len() == cut.len()
        },
        SourceCall::Remove(_, _, _) => true,
    }
}

/// What a store holds after a call.
pub open spec fn after_call<E>(store: StoreView<E>, call: SourceCall<E>) -> StoreView<E> {
    match call {
        SourceCall::Update(job, cut, embed) => worked(
            job,
            StateView::ReadHash,
            store,
            cut,
            embed,
        ).1,
        SourceCall::Remove(source_type, source_id, path) => {
            let steps = removal(source_type, source_id, path);
            removed(steps[1], removed(steps[0], store))
        },
    }
}

/// What a store holds after calls, one after the other.
pub open spec fn after_calls<E>(store: StoreView<E>, calls: Seq<SourceCall<E>>) -> StoreView<E>
    decreases calls.len(),
{
    if calls.len() == 0 {
        store
    } else {
        after_call(after_calls(store, calls.drop_last()), calls.last())
    }
}

/// Whether the last of the calls about a source brought it up to date.
pub open spec fn last_updated<E>(calls: Seq<SourceCall<E>>, source: (Seq<char>, Seq<char>)) -> bool
    decreases calls.len(),
{
    if calls.len() == 0 {
        false
    } else if called_for(calls.last()) == source {
        calls.last() is Update
    } else {
        last_updated(calls.drop_last(), source)
    }
}

/// After calls that succeed, a source has one row if it was last brought up to
/// date, and else none.
proof fn lemma_calls<E>(calls: Seq<SourceCall<E>>, source: (Seq<char>, Seq<char>))
    requires
        forall|i: int| 0 <= i < calls.len() ==> call_holds(#[trigger] calls[i]),
    ensures
        rows_differ(after_calls(empty_store::<E>(), calls).sources),
        stored_hash(after_calls(empty_store::<E>(), calls), source) is Some <==> last_updated(
            calls,
            source,
        ),
    decreases calls.len(),
{
    if calls.len() > 0 {
        let before = calls.drop_last();
        assert forall|i: int| 0 <= i < before.len() implies call_holds(#[trigger] before[i]) by {
            assert(before[i] == calls[i]);
        }
        lemma_calls(before, source);
        assert(call_holds(calls[calls.len() - 1]));
        let store = after_calls(empty_store::<E>(), before);
        match calls.last() {
            SourceCall::Update(job, cut, embed) => {
                let own = source_of(job);
                if stored_hash(store, own) == Some(job.hash) {
                    law_unchanged_source_is_kept(job, store, cut, embed);
                } else {
                    law_changed_source_is_replaced(job, store, cut, embed);
                    lemma_rows_with(store.sources, own, job.hash);
                    lemma_hash_without(store.sources, own, source);
                    lemma_hash_push(
                        without_source(store.sources, own),
                        SourceRow { source: own, hash: job.hash },
                        source,
                    );
                }
            },
            SourceCall::Remove(source_type, source_id, _) => {
                lemma_rows_without(store.sources, (source_type, source_id));
                lemma_hash_without(store.sources, (source_type, source_id), source);
            },
        }
    }
}

/// After any calls that succeed, on sources of any type, the ids that are listed
/// for a type are, each exactly once, those of the sources of that type that
/// were last brought up to date. So an id is not listed among the contents that
/// no call about a content named, though a file of that id is indexed.
pub proof fn law_listed_were_last_updated<E>(
    calls: Seq<SourceCall<E>>,
    source_type: Seq<char>,
    id: Seq<char>,
)
    requires
        forall|i: int| 0 <= i < calls.len() ==> call_holds(#[trigger] calls[i]),
    ensures
        ({
            let ids = listed(after_calls(empty_store::<E>(), calls).sources, source_type);
            &&& ids.no_duplicates()
            &&& ids.contains(id) <==> last_updated(calls, (source_type, id))
            &&& (forall|i: int|
                0 <= i < calls.len() ==> called_for(#[trigger] calls[i]) != (source_type, id))
                ==> !ids.contains(id)
        }),
{
    lemma_calls(calls, (source_type, id));
    lemma_listed(after_calls(empty_store::<E>(), calls).sources, source_type, id);
    if forall|i: int|
        0 <= i < calls.len() ==> called_for(#[trigger] calls[i]) != (source_type, id) {
        lemma_never_updated(calls, (source_type, id));
    }
}

/// A source that no call was about was not brought up to date.
proof fn lemma_never_updated<E>(calls: Seq<SourceCall<E>>, source: (Seq<char>, Seq<char>))
    requires
        forall|i: int| 0 <= i < calls.len() ==> called_for(#[trigger] calls[i]) != source,
    ensures
        !last_updated(calls, source),
    decreases calls.len(),
{
    if calls.len() > 0 {
        let before = calls.drop_last();
        assert forall|i: int| 0 <= i < before.len() implies called_for(#[trigger] before[i])
            != source by {
            assert(before[i] == calls[i]);
        }
        assert(called_for(calls[calls.len() - 1]) != source);
        lemma_never_updated(before, source);
    }
}

} // verus!
