//! What a search does with its arguments and with what the store finds.
use crate::config::{Config, ConfigView, RootInput, RootInputView};
use crate::json::{
    add_item, as_text, as_unsigned, field, get_text, get_unsigned, items_view, list_value, no_items,
    number_value, text_value, unsigned, Json, JsonView,
};
use crate::lines::{byte_len, bytes_of};
use crate::policy::{
    allow_lists, call_config, inputs_view, resolve_call_config, CallConfig, CallRoot, CallRootView,
    CallView, SettingsView,
};
use crate::sorting::views;
use crate::store::{
    language_allowed, passes_languages, FilterView, ResultView, RootFilter, RootFilterView,
    SearchFilter, SearchResult,
};
use crate::text::{clone_texts, first_from, split_once, text_lists, texts};
use crate::types::ChunkView;
use vstd::prelude::*;

verus! {

// ---------------------------------------------------------------------------
// Arguments
// ---------------------------------------------------------------------------

/// What a search looks for, and where.
#[derive(Debug)]
pub struct SearchPlan {
    pub query: String,
    pub top_k: usize,
    pub call: CallConfig,
}

/// What a search looks for, as a mathematical value.
#[verifier::ext_equal]
pub struct PlanView {
    pub query: Seq<char>,
    pub top_k: int,
    pub call: CallView,
}

impl View for SearchPlan {
    type V = PlanView;

    open spec fn view(&self) -> PlanView {
        PlanView { query: self.query@, top_k: self.top_k as int, call: self.call@ }
    }
}

/// How many chunks to ask the store for: the limit that the call gives, or five,
/// but no more than its policy allows.
pub open spec fn wanted(limit: Option<int>, max_results: Option<int>) -> int {
    let asked = match limit {
        Some(limit) => (limit as u64) as usize as int,
        None => 5,
    };
    match max_results {
        Some(most) => if most < asked {
            most
        } else {
            asked
        },
        None => asked,
    }
}

/// What a search looks for: a query is required, the policy has to be readable,
/// and there has to be a root.
pub open spec fn planned_search(
    config: ConfigView,
    arguments: JsonView,
    meta: JsonView,
    inputs: Result<Seq<RootInputView>, Seq<char>>,
    cwd: Seq<char>,
) -> Result<PlanView, Seq<char>> {
    match as_text(field(arguments, "query"@)) {
        None => Err("query is required"@),
        Some(query) => match call_config(config, meta, inputs, cwd) {
            Err(message) => Err(message),
            Ok(call) => if call.roots.len() == 0 {
                Err("no roots configured"@)
            } else {
                Ok(
                    PlanView {
                        query,
                        top_k: wanted(
                            as_unsigned(field(arguments, "limit"@)),
                            call.settings.max_results,
                        ),
                        call,
                    },
                )
            },
        },
    }
}

/// Reads the arguments of a search.
pub fn plan_search(
    config: &Config,
    arguments: &Json,
    meta: &Json,
    inputs: &Result<Vec<RootInput>, String>,
    cwd: &Option<String>,
) -> (plan: Result<SearchPlan, String>)
    ensures
        crate::config::result_view(plan) == planned_search(
            config@,
            arguments@,
            meta@,
            inputs_view(*inputs),
            match *cwd {
                Some(cwd) => cwd@,
                None => config@.default_root,
            },
        ),
{
    let query = match get_text(arguments, "query") {
        Some(query) => query,
        None => {
            return Err("query is required".to_owned());
        },
    };
    let limit: usize = match get_unsigned(arguments, "limit") {
        Some(limit) => limit as usize,
        None => 5,
    };
    let call = match resolve_call_config(config, meta, inputs, cwd) {
        Ok(call) => call,
        Err(message) => {
            return Err(message);
        },
    };
    assert(call@.roots.len() == call.roots@.len());
    if call.roots.len() == 0 {
        return Err("no roots configured".to_owned());
    }
    let top_k: usize = match call.max_results {
        Some(most) => if most < limit {
            most
        } else {
            limit
        },
        None => limit,
    };
    Ok(SearchPlan { query, top_k, call })
}

/// The embedding of a query: the first of those that the embedder gave.
pub fn query_vector<E>(vectors: Vec<Vec<E>>) -> (vector: Result<Vec<E>, String>)
    ensures
        match vector {
            Ok(vector) => vectors@.len() > 0 && vector@ == vectors@[0]@,
            Err(message) => vectors@.len() == 0 && message@ == "embedder returned no vectors"@,
        },
{
    let mut vectors = vectors;
    if vectors.len() == 0 {
        return Err("embedder returned no vectors".to_owned());
    }
    Ok(vectors.remove(0))
}

// ---------------------------------------------------------------------------
// The filter of a call
// ---------------------------------------------------------------------------

/// What the store may give back from a root of a call.
pub open spec fn root_filter(root: CallRootView) -> RootFilterView {
    RootFilterView { path: root.path, allow: allow_lists(root), deny: root.deny }
}

/// What the store may give back to a call: chunks under its roots that pass the
/// patterns of their root and those of the policy.
pub open spec fn call_filter(call: CallView) -> FilterView {
    FilterView {
        allowed_roots: Seq::new(call.roots.len(), |i: int| root_filter(call.roots[i])),
        allow_globs: call.settings.allow_globs,
        deny_globs: call.settings.deny_globs,
        allow_languages: call.settings.allow_languages,
        deny_languages: call.settings.deny_languages,
        max_results: call.settings.max_results,
        max_bytes: call.settings.max_bytes,
    }
}

/// What the store may give back from a root of a call.
fn build_root_filter(root: &CallRoot) -> (filter: RootFilter)
    ensures
        filter@ == root_filter(root@),
{
    let ghost lists = allow_lists(root@);
    let mut allow: Vec<Vec<String>> = Vec::new();
    allow.push(clone_texts(&root.allow));
    let mut i: usize = 0;
    assert(text_lists(allow@) =~= lists.take(1));
    while i < root.policy_allow.len()
        invariant
            i <= root.policy_allow@.len(),
            lists == allow_lists(root@),
            text_lists(allow@) == lists.take(i + 1),
        decreases root.policy_allow@.len() - i,
    {
        let list = clone_texts(&root.policy_allow[i]);
        proof {
            assert(lists[i + 1] == texts(root.policy_allow@[i as int]@));
            assert(text_lists(allow@.push(list)) =~= text_lists(allow@).push(texts(list@)));
            assert(lists.take(i + 2) =~= lists.take(i + 1).push(lists[i + 1]));
        }
        allow.push(list);
        i = i + 1;
    }
    assert(lists.take(i + 1) =~= lists);
    RootFilter { path: root.path.clone(), allow, deny: clone_texts(&root.deny) }
}

/// What the store may give back to a call.
pub fn build_filter(call: &CallConfig) -> (filter: SearchFilter)
    ensures
        filter@ == call_filter(call@),
{
    let ghost roots = call@.roots;
    let ghost wanted = call_filter(call@).allowed_roots;
    let mut allowed: Vec<RootFilter> = Vec::new();
    let mut i: usize = 0;
    assert(views(allowed@) =~= wanted.take(0));
    while i < call.roots.len()
        invariant
            i <= call.roots@.len(),
            roots == views(call.roots@),
            wanted == Seq::new(roots.len(), |i: int| root_filter(roots[i])),
            views(allowed@) == wanted.take(i as int),
        decreases call.roots@.len() - i,
    {
        let root = build_root_filter(&call.roots[i]);
        proof {
            assert(roots[i as int] == call.roots@[i as int]@);
            assert(views(allowed@.push(root)) =~= views(allowed@).push(root@));
            assert(wanted.take(i + 1) =~= wanted.take(i as int).push(wanted[i as int]));
        }
        allowed.push(root);
        i = i + 1;
    }
    assert(wanted.take(i as int) =~= wanted);
    SearchFilter {
        allowed_roots: allowed,
        allow_globs: clone_texts(&call.allow_globs),
        deny_globs: clone_texts(&call.deny_globs),
        allow_languages: clone_texts(&call.allow_languages),
        deny_languages: clone_texts(&call.deny_languages),
        max_results: call.max_results,
        max_bytes: call.max_bytes,
    }
}

// ---------------------------------------------------------------------------
// Results
// ---------------------------------------------------------------------------

/// A text without its header: what stands behind the first empty line.
pub open spec fn stripped(text: Seq<char>) -> Seq<char> {
    match first_from(text, "\n\n"@, 0) {
        Some(at) => text.skip(at + "\n\n"@.len()),
        None => match first_from(text, "\r\n\r\n"@, 0) {
            Some(at) => text.skip(at + "\r\n\r\n"@.len()),
            None => text,
        },
    }
}

/// Removes the header of a chunk.
pub fn strip_chunk_header(text: &str) -> (body: String)
    ensures
        body@ == stripped(text@),
{
    match split_once(text, "\n\n") {
        Some(parts) => {
            return parts.1;
        },
        None => {},
    }
    match split_once(text, "\r\n\r\n") {
        Some(parts) => parts.1,
        None => text.to_owned(),
    }
}

/// Whether the languages of a call let a chunk pass.
pub open spec fn speaks(found: ResultView, settings: SettingsView) -> bool {
    passes_languages(found.chunk.language, settings.allow_languages, settings.deny_languages)
}

/// Whether the languages of a call let a chunk pass.
pub fn matches_language(found: &SearchResult, call: &CallConfig) -> (passes: bool)
    ensures
        passes == speaks(found@, call@.settings),
{
    language_allowed(
        found.chunk.metadata.language.as_str(),
        &call.allow_languages,
        &call.deny_languages,
    )
}

/// Whether a call may get one more chunk, after `count` of them.
pub open spec fn room_for(settings: SettingsView, count: int) -> bool {
    match settings.max_results {
        Some(most) => count < most,
        None => true,
    }
}

/// Whether a call may get a text that takes it to `bytes` bytes.
pub open spec fn room_in(settings: SettingsView, bytes: int) -> bool {
    match settings.max_bytes {
        Some(most) => bytes <= most,
        None => true,
    }
}

/// The chunks that a call gets, after `count` of them with `bytes` bytes: those
/// in its languages, up to the first that would be too many or too long.
pub open spec fn picked(
    results: Seq<ResultView>,
    settings: SettingsView,
    count: int,
    bytes: int,
) -> Seq<ResultView>
    decreases results.len(),
{
    if results.len() == 0 || !room_for(settings, count) {
        Seq::empty()
    } else if !speaks(results[0], settings) {
        picked(results.drop_first(), settings, count, bytes)
    } else {
        let next = bytes + bytes_of(results[0].chunk.text).len();
        if !room_in(settings, next) {
            Seq::empty()
        } else {
            seq![results[0]] + picked(results.drop_first(), settings, count + 1, next)
        }
    }
}

/// Picks the chunks that a call gets.
pub fn filter_results(results: Vec<SearchResult>, call: &CallConfig) -> (out: Vec<SearchResult>)
    ensures
        views(out@) == picked(views(results@), call@.settings, 0, 0),
{
    let ghost all = views(results@);
    let ghost settings = call@.settings;
    let ghost whole = picked(all, settings, 0, 0);
    let mut rest: Vec<SearchResult> = Vec::new();
    let mut source = results;
    while source.len() > 0
        invariant
            all.len() == source@.len() + rest@.len(),
            forall|k: int| 0 <= k < source@.len() ==> all[k] == (#[trigger] source@[k])@,
            forall|k: int|
                0 <= k < rest@.len() ==> all[all.len() - 1 - k] == (#[trigger] rest@[k])@,
        decreases source@.len(),
    {
        match source.pop() {
            Some(found) => {
                rest.push(found);
            },
            None => {},
        }
    }
    let mut out: Vec<SearchResult> = Vec::new();
    let mut total: usize = 0;
    let ghost mut bytes: int = 0;
    let mut open = true;
    proof {
        assert(all.skip(0) =~= all);
        assert(views(out@) + whole =~= whole);
    }
    while open && rest.len() > 0
        invariant
            rest@.len() <= all.len(),
            settings == call@.settings,
            forall|k: int|
                0 <= k < rest@.len() ==> all[all.len() - 1 - k] == (#[trigger] rest@[k])@,
            open ==> whole == views(out@) + picked(
                all.skip(all.len() - rest@.len()),
                settings,
                out@.len() as int,
                bytes,
            ),
            !open ==> whole == views(out@),
            settings.max_bytes is Some ==> bytes == total && room_in(settings, bytes),
        decreases rest@.len() + if open {
            1int
        } else {
            0
        },
    {
        let ghost left = all.skip(all.len() - rest@.len());
        let ghost behind = all.skip(all.len() - rest@.len() + 1);
        proof {
            assert(left[0] == rest@[rest@.len() - 1]@);
            assert(left.drop_first() =~= behind);
        }
        let full = match call.max_results {
            Some(most) => out.len() >= most,
            None => false,
        };
        if full {
            open = false;
            assert(views(out@) + Seq::<ResultView>::empty() =~= views(out@));
        } else {
            match rest.pop() {
                Some(found) => {
                    if matches_language(&found, call) {
                        let length: usize = byte_len(found.chunk.text.as_str());
                        let fits = match call.max_bytes {
                            Some(most) => length <= most - total,
                            None => true,
                        };
                        if fits {
                            if call.max_bytes.is_some() {
                                total = total + length;
                            }
                            proof {
                                bytes = bytes + length;
                                let tail = picked(behind, settings, (out@.len() + 1) as int, bytes);
                                assert(views(out@.push(found)) =~= views(out@).push(found@));
                                assert(views(out@) + (seq![found@] + tail) =~= views(out@).push(
                                    found@,
                                ) + tail);
                            }
                            out.push(found);
                        } else {
                            open = false;
                            assert(views(out@) + Seq::<ResultView>::empty() =~= views(out@));
                        }
                    }
                },
                None => {},
            }
        }
    }
    proof {
        if open {
            assert(all.skip(all.len() as int).len() == 0);
            assert(views(out@) + Seq::<ResultView>::empty() =~= views(out@));
        }
    }
    out
}

/// An optional text as a JSON value.
pub open spec fn text_or_null(text: Option<Seq<char>>) -> JsonView {
    match text {
        Some(text) => JsonView::Text(text),
        None => JsonView::Null,
    }
}

/// Where a chunk comes from, as a JSON value.
pub open spec fn metadata_json(chunk: ChunkView) -> JsonView {
    JsonView::object()
        .with("file_path"@, JsonView::Text(chunk.path))
        .with("language"@, JsonView::Text(chunk.language))
        .with("node_kind"@, JsonView::Text(chunk.kind))
        .with("start_line"@, unsigned(chunk.first_line))
        .with("end_line"@, unsigned(chunk.last_line))
        .with("parent_context"@, text_or_null(chunk.context))
}

/// A chunk that was found, as a JSON value: without its header.
pub open spec fn match_json(found: ResultView) -> JsonView {
    JsonView::object()
        .with("score"@, found.score)
        .with("text"@, JsonView::Text(stripped(found.chunk.text)))
        .with("metadata"@, metadata_json(found.chunk))
}

/// What a search gives back, as a JSON value.
pub open spec fn payload_json(found: Seq<ResultView>) -> JsonView {
    JsonView::object()
        .with(
            "matches"@,
            JsonView::List(Seq::new(found.len(), |i: int| match_json(found[i]))),
        )
        .with("count"@, unsigned(found.len() as int))
}

/// A chunk that was found, as a JSON value.
fn match_value(found: &SearchResult) -> (value: Json)
    ensures
        value@ == match_json(found@),
{
    let context: Json = match &found.chunk.metadata.parent_context {
        Some(context) => text_value(context.as_str()),
        None => Json::Null,
    };
    let metadata = Json::object().with(
        "file_path",
        text_value(found.chunk.metadata.file_path.as_str()),
    ).with("language", text_value(found.chunk.metadata.language.as_str())).with(
        "node_kind",
        text_value(found.chunk.metadata.node_kind.as_str()),
    ).with("start_line", number_value(found.chunk.metadata.start_line as u64)).with(
        "end_line",
        number_value(found.chunk.metadata.end_line as u64),
    ).with("parent_context", context);
    let body = strip_chunk_header(found.chunk.text.as_str());
    Json::object().with("score", crate::json::copy_json(&found.score)).with(
        "text",
        text_value(body.as_str()),
    ).with("metadata", metadata)
}

/// What a search gives back of what the store found.
pub fn search_payload(results: Vec<SearchResult>, call: &CallConfig) -> (payload: Json)
    ensures
        payload@ == payload_json(picked(views(results@), call@.settings, 0, 0)),
{
    let found = filter_results(results, call);
    let ghost all = views(found@);
    let ghost told = Seq::new(all.len(), |i: int| match_json(all[i]));
    let mut items = no_items();
    let mut i: usize = 0;
    assert(told.take(0) =~= Seq::<JsonView>::empty());
    while i < found.len()
        invariant
            i <= found@.len(),
            all == views(found@),
            told == Seq::new(all.len(), |i: int| match_json(all[i])),
            items_view(items@) == told.take(i as int),
        decreases found@.len() - i,
    {
        add_item(&mut items, match_value(&found[i]));
        assert(told.take(i + 1) =~= told.take(i as int).push(told[i as int]));
        i = i + 1;
    }
    assert(told.take(i as int) =~= told);
    let count: usize = found.len();
    Json::object().with("matches", list_value(items)).with("count", number_value(count as u64))
}

} // verus!
