//! What holds of every answer to a search.
use crate::config::{ConfigView, RootInputView};
use crate::globs::{glob_matches, matches_any, pattern_set};
use crate::json::{as_text, as_unsigned, field, unsigned, JsonView};
use crate::lines::bytes_of;
use crate::paths::{below, under};
use crate::policy::{call_config, CallRootView, CallView, SettingsView};
use crate::schema_laws::lemma_field_with;
use crate::search::{
    call_filter, match_json, metadata_json, payload_json, picked, planned_search, room_for,
    room_in, root_filter, speaks, stripped, wanted,
};
use crate::store::{
    first_root, flattened, found_row, holds_chunk, holds_chunks, kept_all, kept_rows, passes,
    passes_globs, passes_root, search_results, ChunkColumns, Column, FilterView, FoundColumns,
    ResultView, RootFilterView,
};
use crate::text::{lemma_first_from, stands_at};
use crate::types::EmbeddedChunk;
use vstd::prelude::*;

verus! {

// ---------------------------------------------------------------------------
// What is told of a match
// ---------------------------------------------------------------------------

/// The words of an answer differ.
proof fn lemma_words()
    ensures
        "score"@.len() == 5,
        "text"@.len() == 4,
        "metadata"@.len() == 8,
        "matches"@.len() == 7,
        "count"@.len() == 5,
        "file_path"@.len() == 9,
        "language"@.len() == 8,
        "node_kind"@.len() == 9,
        "start_line"@.len() == 10,
        "end_line"@.len() == 8,
        "parent_context"@.len() == 14,
        "file_path"@ != "node_kind"@,
        "language"@ != "end_line"@,
{
    reveal_strlit("score");
    reveal_strlit("text");
    reveal_strlit("metadata");
    reveal_strlit("matches");
    reveal_strlit("count");
    reveal_strlit("file_path");
    reveal_strlit("language");
    reveal_strlit("node_kind");
    reveal_strlit("start_line");
    reveal_strlit("end_line");
    reveal_strlit("parent_context");
    assert("file_path"@[0] != "node_kind"@[0]);
    assert("language"@[0] != "end_line"@[0]);
}

/// What a match tells: the score that the store gave, the text of the chunk without
/// its header, and where the chunk comes from.
pub proof fn law_match_tells_chunk(found: ResultView)
    ensures
        field(match_json(found), "score"@) == Some(found.score),
        field(match_json(found), "text"@) == Some(JsonView::Text(stripped(found.chunk.text))),
        field(match_json(found), "metadata"@) is Some,
        ({
            let from = field(match_json(found), "metadata"@)->0;
            &&& field(from, "file_path"@) == Some(JsonView::Text(found.chunk.path))
            &&& field(from, "language"@) == Some(JsonView::Text(found.chunk.language))
            &&& field(from, "node_kind"@) == Some(JsonView::Text(found.chunk.kind))
            &&& field(from, "start_line"@) == Some(unsigned(found.chunk.first_line))
            &&& field(from, "end_line"@) == Some(unsigned(found.chunk.last_line))
            &&& field(from, "parent_context"@) == match found.chunk.context {
                Some(context) => Some(JsonView::Text(context)),
                None => Some(JsonView::Null),
            }
        }),
{
    broadcast use lemma_field_with;

    lemma_words();
    let from = metadata_json(found.chunk);
    assert(field(match_json(found), "metadata"@) == Some(from));
}

/// An answer holds the chunks that the call gets, each at its place: the first is
/// told first. Their number is told with them.
pub proof fn law_answer_keeps_order(found: Seq<ResultView>)
    ensures
        field(payload_json(found), "count"@) == Some(unsigned(found.len() as int)),
        field(payload_json(found), "matches"@) is Some,
        field(payload_json(found), "matches"@)->0 is List,
        ({
            let told = (field(payload_json(found), "matches"@)->0)->List_0;
            &&& told.len() == found.len()
            &&& forall|i: int|
                0 <= i < found.len() ==> {
                    let item = #[trigger] told[i];
                    &&& field(item, "score"@) == Some(found[i].score)
                    &&& field(item, "text"@) == Some(
                        JsonView::Text(stripped(found[i].chunk.text)),
                    )
                    &&& field(item, "metadata"@) is Some
                    &&& field(field(item, "metadata"@)->0, "file_path"@) == Some(
                        JsonView::Text(found[i].chunk.path),
                    )
                    &&& field(field(item, "metadata"@)->0, "start_line"@) == Some(
                        unsigned(found[i].chunk.first_line),
                    )
                    &&& field(field(item, "metadata"@)->0, "end_line"@) == Some(
                        unsigned(found[i].chunk.last_line),
                    )
                }
        }),
{
    broadcast use lemma_field_with;

    lemma_words();
    let told = Seq::new(found.len(), |i: int| match_json(found[i]));
    assert(field(payload_json(found), "matches"@) == Some(JsonView::List(told)));
    assert forall|i: int| 0 <= i < found.len() implies ({
        let item = #[trigger] told[i];
        &&& field(item, "score"@) == Some(found[i].score)
        &&& field(item, "text"@) == Some(JsonView::Text(stripped(found[i].chunk.text)))
        &&& field(item, "metadata"@) is Some
        &&& field(field(item, "metadata"@)->0, "file_path"@) == Some(
            JsonView::Text(found[i].chunk.path),
        )
        &&& field(field(item, "metadata"@)->0, "start_line"@) == Some(
            unsigned(found[i].chunk.first_line),
        )
        &&& field(field(item, "metadata"@)->0, "end_line"@) == Some(
            unsigned(found[i].chunk.last_line),
        )
    }) by {
        law_match_tells_chunk(found[i]);
    }
}

// ---------------------------------------------------------------------------
// Which chunks a call gets
// ---------------------------------------------------------------------------

/// Whether a call may get chunks in a language: it is among those that are allowed,
/// where any are, and not among those that are denied.
pub open spec fn may_get(settings: SettingsView, language: Seq<char>) -> bool {
    &&& settings.allow_languages.len() > 0 ==> settings.allow_languages.contains(language)
    &&& !settings.deny_languages.contains(language)
}

/// The chunks in languages that a call may get, in their order.
pub open spec fn eligible(results: Seq<ResultView>, settings: SettingsView) -> Seq<ResultView>
    decreases results.len(),
{
    if results.len() == 0 {
        Seq::empty()
    } else {
        let rest = eligible(results.drop_first(), settings);
        if may_get(settings, results[0].chunk.language) {
            Seq::empty().push(results[0]) + rest
        } else {
            rest
        }
    }
}

/// The bytes of the texts of chunks.
pub open spec fn total_bytes(results: Seq<ResultView>) -> int
    decreases results.len(),
{
    if results.len() == 0 {
        0
    } else {
        bytes_of(results[0].chunk.text).len() + total_bytes(results.drop_first())
    }
}

/// Bytes of more chunks.
proof fn lemma_total_front(results: Seq<ResultView>, first: ResultView)
    ensures
        total_bytes(Seq::empty().push(first) + results) == bytes_of(first.chunk.text).len()
            + total_bytes(results),
{
    assert((Seq::empty().push(first) + results).drop_first() =~= results);
}

/// What a call gets is a front of the chunks that it may get, within its limits, and
/// as long a front as they allow: it ends where all chunks are taken, where it holds
/// as many as the policy allows, or where the next one would be too long.
pub proof fn law_call_gets_the_nearest(results: Seq<ResultView>, settings: SettingsView)
    requires
        settings.max_results is Some ==> settings.max_results->0 >= 0,
        settings.max_bytes is Some ==> settings.max_bytes->0 >= 0,
    ensures
        ({
            let out = picked(results, settings, 0, 0);
            let all = eligible(results, settings);
            &&& out.len() <= all.len()
            &&& out == all.take(out.len() as int)
            &&& settings.max_results is Some ==> out.len() <= settings.max_results->0
            &&& settings.max_bytes is Some ==> total_bytes(out) <= settings.max_bytes->0
            &&& out.len() == all.len() || settings.max_results == Some(out.len() as int) || (
            settings.max_bytes is Some && total_bytes(out) + bytes_of(
                all[out.len() as int].chunk.text,
            ).len() > settings.max_bytes->0)
        }),
{
    lemma_nearest(results, settings, 0, 0);
}

/// What a call gets, after some chunks.
proof fn lemma_nearest(results: Seq<ResultView>, settings: SettingsView, count: int, bytes: int)
    requires
        0 <= count,
        0 <= bytes,
        settings.max_results is Some ==> count <= settings.max_results->0,
        settings.max_bytes is Some ==> bytes <= settings.max_bytes->0,
    ensures
        ({
            let out = picked(results, settings, count, bytes);
            let all = eligible(results, settings);
            &&& out.len() <= all.len()
            &&& out == all.take(out.len() as int)
            &&& settings.max_results is Some ==> count + out.len() <= settings.max_results->0
            &&& settings.max_bytes is Some ==> bytes + total_bytes(out) <= settings.max_bytes->0
            &&& out.len() == all.len() || settings.max_results == Some(count + out.len()) || (
            settings.max_bytes is Some && bytes + total_bytes(out) + bytes_of(
                all[out.len() as int].chunk.text,
            ).len() > settings.max_bytes->0)
        }),
    decreases results.len(),
{
    let out = picked(results, settings, count, bytes);
    let all = eligible(results, settings);
    if results.len() == 0 {
        assert(out =~= all.take(0));
    } else {
        assert(speaks(results[0], settings) == may_get(settings, results[0].chunk.language));
        if !room_for(settings, count) {
            assert(out =~= all.take(0));
        } else if !speaks(results[0], settings) {
            lemma_nearest(results.drop_first(), settings, count, bytes);
        } else {
            let next = bytes + bytes_of(results[0].chunk.text).len();
            if !room_in(settings, next) {
                assert(out =~= all.take(0));
                assert(all[0] == results[0]);
                assert(total_bytes(out) == 0);
            } else {
                let behind = results.drop_first();
                lemma_nearest(behind, settings, count + 1, next);
                let rest = picked(behind, settings, count + 1, next);
                let more = eligible(behind, settings);
                assert(out =~= Seq::empty().push(results[0]) + rest);
                lemma_total_front(rest, results[0]);
                assert(all.take(out.len() as int) =~= Seq::empty().push(results[0]) + more.take(
                    rest.len() as int,
                ));
                if rest.len() < more.len() {
                    assert(all[out.len() as int] == more[rest.len() as int]);
                }
            }
        }
    }
}

/// Whether chunks stand in the order of a relation.
pub open spec fn stand_by(
    results: Seq<ResultView>,
    before: spec_fn(JsonView, JsonView) -> bool,
) -> bool {
    forall|i: int, j: int|
        0 <= i < j < results.len() ==> before(
            (#[trigger] results[i]).score,
            (#[trigger] results[j]).score,
        )
}

/// What a call gets stands in the order in which the store found it: where the
/// store gives the nearest chunks first, the answer does too.
pub proof fn law_answer_is_ranked(
    results: Seq<ResultView>,
    settings: SettingsView,
    before: spec_fn(JsonView, JsonView) -> bool,
)
    requires
        stand_by(results, before),
    ensures
        stand_by(picked(results, settings, 0, 0), before),
        ({
            let found = picked(results, settings, 0, 0);
            let told = (field(payload_json(found), "matches"@)->0)->List_0;
            forall|i: int, j: int|
                #![trigger told[i], told[j]]
                0 <= i < j < told.len() ==> field(told[i], "score"@) is Some && field(
                    told[j],
                    "score"@,
                ) is Some && before(field(told[i], "score"@)->0, field(told[j], "score"@)->0)
        }),
{
    lemma_ranked(results, settings, before, 0, 0);
    let found = picked(results, settings, 0, 0);
    law_answer_keeps_order(found);
    let told = (field(payload_json(found), "matches"@)->0)->List_0;
    assert forall|i: int, j: int|
        #![trigger told[i], told[j]]
        0 <= i < j < told.len() implies field(told[i], "score"@) is Some && field(
        told[j],
        "score"@,
    ) is Some && before(field(told[i], "score"@)->0, field(told[j], "score"@)->0) by {
        assert(before(found[i].score, found[j].score));
    }
}

/// What a call gets, after some chunks, stands in the order of the results, and is
/// among them.
proof fn lemma_ranked(
    results: Seq<ResultView>,
    settings: SettingsView,
    before: spec_fn(JsonView, JsonView) -> bool,
    count: int,
    bytes: int,
)
    requires
        stand_by(results, before),
    ensures
        stand_by(picked(results, settings, count, bytes), before),
        forall|k: int|
            0 <= k < picked(results, settings, count, bytes).len() ==> results.contains(
                #[trigger] picked(results, settings, count, bytes)[k],
            ),
    decreases results.len(),
{
    let out = picked(results, settings, count, bytes);
    if results.len() == 0 || !room_for(settings, count) {
    } else {
        let behind = results.drop_first();
        assert(stand_by(behind, before)) by {
            assert forall|i: int, j: int| 0 <= i < j < behind.len() implies before(
                (#[trigger] behind[i]).score,
                (#[trigger] behind[j]).score,
            ) by {
                assert(before(results[i + 1].score, results[j + 1].score));
            }
        }
        let next = bytes + bytes_of(results[0].chunk.text).len();
        let (more, size) = if speaks(results[0], settings) {
            (count + 1, next)
        } else {
            (count, bytes)
        };
        lemma_ranked(behind, settings, before, more, size);
        let rest = picked(behind, settings, more, size);
        assert forall|k: int| 0 <= k < rest.len() implies results.contains(#[trigger] rest[k])
            && before(results[0].score, rest[k].score) by {
            assert(behind.contains(rest[k]));
            let at = choose|at: int| 0 <= at < behind.len() && behind[at] == rest[k];
            assert(results[at + 1] == rest[k]);
            assert(before(results[0].score, results[at + 1].score));
        }
        if !speaks(results[0], settings) {
            assert(out == rest);
        } else if room_in(settings, next) {
            assert(out =~= seq![results[0]] + rest);
            assert forall|k: int| 0 <= k < out.len() implies results.contains(#[trigger] out[k]) by {
                if k > 0 {
                    assert(out[k] == rest[k - 1]);
                }
            }
            assert forall|i: int, j: int| 0 <= i < j < out.len() implies before(
                (#[trigger] out[i]).score,
                (#[trigger] out[j]).score,
            ) by {
                assert(out[j] == rest[j - 1]);
                if i > 0 {
                    assert(out[i] == rest[i - 1]);
                }
            }
        }
    }
}

/// A search is made for the query of the call, within what the call may search. It
/// needs a query and a root.
pub proof fn law_search_is_planned(
    config: ConfigView,
    arguments: JsonView,
    meta: JsonView,
    inputs: Result<Seq<RootInputView>, Seq<char>>,
    cwd: Seq<char>,
)
    ensures
        planned_search(config, arguments, meta, inputs, cwd) is Ok <==> {
            &&& as_text(field(arguments, "query"@)) is Some
            &&& call_config(config, meta, inputs, cwd) is Ok
            &&& call_config(config, meta, inputs, cwd)->Ok_0.roots.len() > 0
        },
        match planned_search(config, arguments, meta, inputs, cwd) {
            Ok(plan) => {
                let limit = as_unsigned(field(arguments, "limit"@));
                &&& as_text(field(arguments, "query"@)) == Some(plan.query)
                &&& call_config(config, meta, inputs, cwd) == Ok::<CallView, Seq<char>>(plan.call)
                &&& plan.call.settings.max_results is Some ==> plan.top_k
                    <= plan.call.settings.max_results->0
                &&& limit is Some && 0 <= limit->0 <= u32::MAX ==> plan.top_k <= limit->0
                &&& limit is None ==> plan.top_k <= 5
                &&& plan.call.settings.max_results is None ==> (limit is None ==> plan.top_k == 5)
                    && (limit is Some && 0 <= limit->0 <= u32::MAX ==> plan.top_k == limit->0)
            },
            Err(_) => true,
        },
{
}

/// The text of a match is what stands behind the first empty line of the chunk; a
/// text without one is told whole.
pub proof fn law_stripped(text: Seq<char>)
    ensures
        ({
            let body = stripped(text);
            let at = text.len() - body.len();
            &&& 0 <= at
            &&& text.skip(at) == body
            &&& at == 0 || stands_at(text, "\n\n"@, at - 2) || stands_at(text, "\r\n\r\n"@, at - 4)
            &&& at > 0 && stands_at(text, "\n\n"@, at - 2) ==> forall|k: int|
                0 <= k < at - 2 ==> !#[trigger] stands_at(text, "\n\n"@, k)
            &&& at == 0 ==> forall|k: int| !#[trigger] stands_at(text, "\n\n"@, k)
        }),
{
    reveal_strlit("\n\n");
    reveal_strlit("\r\n\r\n");
    lemma_first_from(text, "\n\n"@, 0);
    lemma_first_from(text, "\r\n\r\n"@, 0);
    let body = stripped(text);
    let at = text.len() - body.len();
    assert(text.skip(0) =~= text);
    assert(text.skip(at) =~= body);
}

/// How many chunks the store is asked for: as many as the call wants, five where it
/// does not say, and never more than the policy allows.
pub proof fn law_asked_for(limit: Option<int>, max_results: Option<int>)
    requires
        limit is Some ==> 0 <= limit->0 <= usize::MAX,
    ensures
        ({
            let want = match limit {
                Some(limit) => limit,
                None => 5,
            };
            let asked = wanted(limit, max_results);
            &&& asked <= want
            &&& max_results is Some ==> asked <= max_results->0
            &&& asked == want || max_results == Some(asked)
        }),
{
}

// ---------------------------------------------------------------------------
// What may be found
// ---------------------------------------------------------------------------

/// Whether a path matches one of some patterns.
pub open spec fn hit(patterns: Seq<Seq<char>>, path: Seq<char>) -> bool {
    exists|i: int| 0 <= i < patterns.len() && glob_matches(#[trigger] patterns[i], path)
}

/// Whether a list of patterns that allow lets a path pass: it matches one, or there
/// is none.
pub open spec fn lets_pass(patterns: Seq<Seq<char>>, path: Seq<char>) -> bool {
    patterns.len() == 0 || hit(patterns, path)
}

/// Whether a path is under the root at a position and under none before it.
pub open spec fn belongs_to(roots: Seq<RootFilterView>, path: Seq<char>, at: int) -> bool {
    &&& 0 <= at < roots.len()
    &&& under(path, roots[at].path)
    &&& forall|k: int| 0 <= k < at ==> !under(path, (#[trigger] roots[k]).path)
}

/// The first root that a path is under.
proof fn lemma_belongs(roots: Seq<RootFilterView>, path: Seq<char>)
    ensures
        0 <= first_root(roots, path) <= roots.len(),
        first_root(roots, path) < roots.len() ==> belongs_to(
            roots,
            path,
            first_root(roots, path),
        ),
        first_root(roots, path) == roots.len() ==> forall|k: int|
            0 <= k < roots.len() ==> !under(path, (#[trigger] roots[k]).path),
    decreases roots.len(),
{
    if roots.len() > 0 && !under(path, roots[0].path) {
        let rest = roots.drop_first();
        lemma_belongs(rest, path);
        let at = first_root(rest, path);
        assert forall|k: int| 0 <= k < at + 1 && k < roots.len() implies !under(
            path,
            (#[trigger] roots[k]).path,
        ) by {
            if k > 0 {
                assert(roots[k] == rest[k - 1]);
            }
        }
        if at < rest.len() {
            assert(roots[at + 1] == rest[at]);
        }
    }
}

/// A chunk may be found exactly where its language is allowed and, where there are
/// roots, it lies under one; below the first such root it must match no pattern that
/// the root or the call denies, and one of each list that they allow.
pub proof fn law_may_be_found(found: ResultView, filter: FilterView)
    ensures
        ({
            let path = found.chunk.path;
            let language = found.chunk.language;
            let roots = filter.allowed_roots;
            passes(found, filter) <==> {
                &&& filter.allow_languages.len() == 0 || filter.allow_languages.contains(language)
                &&& !filter.deny_languages.contains(language)
                &&& roots.len() == 0 || exists|at: int| #[trigger]
                    belongs_to(roots, path, at) && {
                        let rest = below(path, roots[at].path);
                        rest.len() == 0 || {
                            &&& !hit(roots[at].deny, rest)
                            &&& !hit(filter.deny_globs, rest)
                            &&& lets_pass(filter.allow_globs, rest)
                            &&& forall|i: int|
                                0 <= i < roots[at].allow.len() ==> lets_pass(
                                    #[trigger] roots[at].allow[i],
                                    rest,
                                )
                        }
                    }
            }
        }),
{
    let path = found.chunk.path;
    let roots = filter.allowed_roots;
    let first = first_root(roots, path);
    lemma_belongs(roots, path);
    if roots.len() > 0 && first < roots.len() {
        let root = roots[first];
        let rest = below(path, root.path);
        assert(belongs_to(roots, path, first));
        assert(hit(root.deny, rest) == matches_any(root.deny, rest));
        assert(hit(filter.deny_globs, rest) == matches_any(filter.deny_globs, rest));
        assert(hit(filter.allow_globs, rest) == matches_any(filter.allow_globs, rest));
        assert forall|i: int| 0 <= i < root.allow.len() implies passes_globs(
            path,
            root.path,
            pattern_set(#[trigger] root.allow[i]),
            None,
        ) == (rest.len() == 0 || lets_pass(root.allow[i], rest)) by {
            assert(hit(root.allow[i], rest) == matches_any(root.allow[i], rest));
        }
        if passes_root(path, root) && rest.len() > 0 {
            assert forall|i: int| 0 <= i < root.allow.len() implies lets_pass(
                #[trigger] root.allow[i],
                rest,
            ) by {
                assert(passes_globs(path, root.path, pattern_set(root.allow[i]), None));
            }
        }
        assert forall|at: int| #[trigger] belongs_to(roots, path, at) implies at == first by {
            if at < first {
                assert(!under(path, roots[at].path));
            } else if first < at {
                assert(!under(path, roots[first].path));
            }
        }
    } else if roots.len() > 0 {
        assert forall|at: int| !#[trigger] belongs_to(roots, path, at) by {
            if 0 <= at < roots.len() {
                assert(!under(path, roots[at].path));
            }
        }
    }
}

/// Whether a root of a call lets a path below it pass: no pattern that denies
/// matches, and one of each list that allows, its own and those of the policy.
pub open spec fn root_lets_pass(root: CallRootView, rest: Seq<char>) -> bool {
    &&& !hit(root.deny, rest)
    &&& lets_pass(root.allow, rest)
    &&& forall|i: int|
        0 <= i < root.policy_allow.len() ==> lets_pass(#[trigger] root.policy_allow[i], rest)
}

/// Whether a path is under the root of a call at a position and under none before
/// it.
pub open spec fn lies_in(roots: Seq<CallRootView>, path: Seq<char>, at: int) -> bool {
    &&& 0 <= at < roots.len()
    &&& under(path, roots[at].path)
    &&& forall|k: int| 0 <= k < at ==> !under(path, (#[trigger] roots[k]).path)
}

/// What a call with roots may find: chunks in its languages under its roots which
/// their root and the policy of the call let pass.
pub proof fn law_call_may_find(found: ResultView, call: CallView)
    requires
        call.roots.len() > 0,
    ensures
        passes(found, call_filter(call)) <==> may_get(call.settings, found.chunk.language)
            && exists|at: int| #[trigger]
            lies_in(call.roots, found.chunk.path, at) && {
                let rest = below(found.chunk.path, call.roots[at].path);
                rest.len() == 0 || (root_lets_pass(call.roots[at], rest) && !hit(
                    call.settings.deny_globs,
                    rest,
                ) && lets_pass(call.settings.allow_globs, rest))
            },
{
    let filter = call_filter(call);
    let path = found.chunk.path;
    let roots = filter.allowed_roots;
    law_may_be_found(found, filter);
    assert forall|at: int| #[trigger] belongs_to(roots, path, at) == lies_in(
        call.roots,
        path,
        at,
    ) by {
        if 0 <= at < roots.len() {
            assert(roots[at] == root_filter(call.roots[at]));
            if belongs_to(roots, path, at) {
                assert forall|k: int| 0 <= k < at implies !under(
                    path,
                    (#[trigger] call.roots[k]).path,
                ) by {
                    assert(!under(path, roots[k].path));
                }
            }
            if lies_in(call.roots, path, at) {
                assert forall|k: int| 0 <= k < at implies !under(path, (#[trigger] roots[k]).path) by {
                    assert(!under(path, call.roots[k].path));
                }
            }
        }
    }
    assert forall|at: int, rest: Seq<char>| 0 <= at < roots.len() implies ({
        &&& !hit(roots[at].deny, rest)
        &&& forall|i: int|
            0 <= i < roots[at].allow.len() ==> lets_pass(#[trigger] roots[at].allow[i], rest)
    }) == #[trigger] root_lets_pass(call.roots[at], rest) by {
        let root = call.roots[at];
        let lists = roots[at].allow;
        assert(lists.len() == 1 + root.policy_allow.len());
        assert(lists[0] == root.allow);
        assert forall|i: int| 0 <= i < root.policy_allow.len() implies lists[i + 1]
            == #[trigger] root.policy_allow[i] by {}
        if forall|i: int| 0 <= i < lists.len() ==> lets_pass(#[trigger] lists[i], rest) {
            assert(lets_pass(lists[0], rest));
            assert forall|i: int| 0 <= i < root.policy_allow.len() implies lets_pass(
                #[trigger] root.policy_allow[i],
                rest,
            ) by {
                assert(lets_pass(lists[i + 1], rest));
            }
        }
        if root_lets_pass(root, rest) {
            assert forall|i: int| 0 <= i < lists.len() implies lets_pass(
                #[trigger] lists[i],
                rest,
            ) by {
                if i > 0 {
                    assert(lists[i] == root.policy_allow[i - 1]);
                }
            }
        }
    }
    if exists|at: int| #[trigger] lies_in(call.roots, path, at) {
        let at = choose|at: int| #[trigger] lies_in(call.roots, path, at);
        assert(belongs_to(roots, path, at));
        let rest = below(path, roots[at].path);
        assert(root_lets_pass(call.roots[at], rest) == ({
            &&& !hit(roots[at].deny, rest)
            &&& forall|i: int|
                0 <= i < roots[at].allow.len() ==> lets_pass(#[trigger] roots[at].allow[i], rest)
        }));
        assert forall|other: int| #[trigger] lies_in(call.roots, path, other) implies other == at by {
            if other < at {
                assert(!under(path, call.roots[other].path));
            } else if at < other {
                assert(!under(path, call.roots[at].path));
            }
        }
    }
}

// ---------------------------------------------------------------------------
// Rows
// ---------------------------------------------------------------------------

/// The rows of a batch, one behind the other.
pub open spec fn rows_of(columns: FoundColumns, before: int) -> Seq<ResultView>
    decreases before,
{
    if before <= 0 {
        Seq::empty()
    } else {
        rows_of(columns, before - 1).push(found_row(columns, before - 1))
    }
}

/// The rows of batches, one behind the other.
pub open spec fn all_rows(batches: Seq<FoundColumns>) -> Seq<ResultView>
    decreases batches.len(),
{
    if batches.len() == 0 {
        Seq::empty()
    } else {
        all_rows(batches.drop_last()) + rows_of(batches.last(), batches.last().rows as int)
    }
}

/// The chunks that a filter lets pass, in their order.
pub open spec fn passing(results: Seq<ResultView>, filter: FilterView) -> Seq<ResultView>
    decreases results.len(),
{
    if results.len() == 0 {
        Seq::empty()
    } else if passes(results.last(), filter) {
        passing(results.drop_last(), filter).push(results.last())
    } else {
        passing(results.drop_last(), filter)
    }
}

/// What passes of two lists passes of each.
proof fn lemma_passing_add(a: Seq<ResultView>, b: Seq<ResultView>, filter: FilterView)
    ensures
        passing(a + b, filter) == passing(a, filter) + passing(b, filter),
    decreases b.len(),
{
    if b.len() == 0 {
        assert(a + b =~= a);
        assert(passing(a, filter) + passing(b, filter) =~= passing(a, filter));
    } else {
        lemma_passing_add(a, b.drop_last(), filter);
        assert((a + b).drop_last() =~= a + b.drop_last());
        assert((a + b).last() == b.last());
        if passes(b.last(), filter) {
            assert(passing(a, filter) + passing(b.drop_last(), filter).push(b.last()) =~= (passing(
                a,
                filter,
            ) + passing(b.drop_last(), filter)).push(b.last()));
        }
    }
}

/// The rows of a batch that are kept.
proof fn lemma_rows_kept(columns: FoundColumns, before: int, filter: FilterView)
    ensures
        kept_rows(columns, before, filter) == passing(rows_of(columns, before), filter),
    decreases before,
{
    if before > 0 {
        lemma_rows_kept(columns, before - 1, filter);
        let rows = rows_of(columns, before);
        assert(rows.drop_last() =~= rows_of(columns, before - 1));
    }
}

/// A search gives back the rows that its filter lets pass, each as often as it was
/// found and in the order in which the store found them.
pub proof fn law_search_keeps_order(batches: Seq<FoundColumns>, filter: FilterView)
    requires
        search_results(batches, filter) is Ok,
    ensures
        search_results(batches, filter)->Ok_0 == passing(all_rows(batches), filter),
{
    lemma_batches_kept(batches, filter);
}

/// The rows of batches that are kept.
proof fn lemma_batches_kept(batches: Seq<FoundColumns>, filter: FilterView)
    requires
        kept_all(batches, filter) is Ok,
    ensures
        kept_all(batches, filter)->Ok_0 == passing(all_rows(batches), filter),
    decreases batches.len(),
{
    if batches.len() > 0 {
        let last = batches.last();
        lemma_batches_kept(batches.drop_last(), filter);
        lemma_rows_kept(last, last.rows as int, filter);
        lemma_passing_add(
            all_rows(batches.drop_last()),
            rows_of(last, last.rows as int),
            filter,
        );
    }
}

/// Whether the columns that are read are those that were written.
pub open spec fn same_columns<E>(written: ChunkColumns<E>, read: FoundColumns) -> bool {
    &&& read.rows == written.chunk_ids@.len()
    &&& read.chunk_id == Column::Values(written.chunk_ids)
    &&& read.file_path == Column::Values(written.file_paths)
    &&& read.language == Column::Values(written.languages)
    &&& read.node_kind == Column::Values(written.node_kinds)
    &&& read.start_line == Column::Values(written.start_lines)
    &&& read.end_line == Column::Values(written.end_lines)
    &&& read.parent_context == Column::Values(written.parent_contexts)
    &&& read.text == Column::Values(written.texts)
}

/// A chunk that is written is read back as it was, at its place, with the score of
/// its row, as long as its lines fit into their columns.
pub proof fn law_written_chunk_is_read_back<E>(
    written: ChunkColumns<E>,
    chunks: Seq<EmbeddedChunk<E>>,
    read: FoundColumns,
    i: int,
)
    requires
        holds_chunks(written, chunks),
        same_columns(written, read),
        0 <= i < chunks.len(),
        chunks[i].chunk.metadata.start_line <= u32::MAX,
        chunks[i].chunk.metadata.end_line <= u32::MAX,
    ensures
        read.rows == chunks.len(),
        found_row(read, i).id == chunks[i].chunk.id@,
        found_row(read, i).chunk == chunks[i].chunk@,
        i < read.scores@.len() ==> found_row(read, i).score == read.scores@[i]@,
{
    assert(holds_chunk(written, i, chunks[i]));
    assert(found_row(read, i).chunk =~= chunks[i].chunk@);
}

/// The embeddings that are written stand one behind the other: with embeddings of
/// one length, number `k` of embedding `i` is found that many lengths and numbers
/// from the start.
pub proof fn law_embeddings_stand_in_a_row<E>(
    chunks: Seq<EmbeddedChunk<E>>,
    length: int,
    i: int,
    k: int,
)
    requires
        forall|j: int| 0 <= j < chunks.len() ==> (#[trigger] chunks[j]).embedding@.len() == length,
        0 <= i < chunks.len(),
        0 <= k < length,
    ensures
        flattened(chunks).len() == chunks.len() * length,
        0 <= i * length + k < flattened(chunks).len(),
        flattened(chunks)[i * length + k] == chunks[i].embedding@[k],
    decreases chunks.len(),
{
    lemma_flattened_len(chunks, length);
    let before = chunks.drop_last();
    assert forall|j: int| 0 <= j < before.len() implies (#[trigger] before[j]).embedding@.len()
        == length by {
        assert(before[j] == chunks[j]);
    }
    lemma_flattened_len(before, length);
    assert(i * length + k < chunks.len() * length) by (nonlinear_arith)
        requires
            0 <= i < chunks.len(),
            0 <= k < length,
    ;
    assert(0 <= i * length) by (nonlinear_arith)
        requires
            0 <= i,
            0 < length,
    ;
    if i < before.len() {
        law_embeddings_stand_in_a_row(before, length, i, k);
    } else {
        assert(chunks[chunks.len() - 1].embedding@.len() == length);
        assert(i == before.len());
    }
}

/// The embeddings of chunks are as long as all of them.
proof fn lemma_flattened_len<E>(chunks: Seq<EmbeddedChunk<E>>, length: int)
    requires
        forall|j: int| 0 <= j < chunks.len() ==> (#[trigger] chunks[j]).embedding@.len() == length,
    ensures
        flattened(chunks).len() == chunks.len() * length,
    decreases chunks.len(),
{
    if chunks.len() > 0 {
        let before = chunks.drop_last();
        assert forall|j: int| 0 <= j < before.len() implies (#[trigger] before[j]).embedding@.len()
            == length by {
            assert(before[j] == chunks[j]);
        }
        lemma_flattened_len(before, length);
        assert(chunks[chunks.len() - 1].embedding@.len() == length);
        assert(chunks.len() * length == before.len() * length + length) by (nonlinear_arith)
            requires
                chunks.len() == before.len() + 1,
        ;
    }
}

} // verus!
