//! What holds of every request, every content that is sent and every line of the log.
use crate::content::content_path;
use crate::hashing::{content_hash, text_hash};
use crate::indexer::file_job;
use crate::jobs::Outcome;
use crate::json::{
    as_text, as_unsigned, entry, field, text_items, unsigned, EntryView, Json, JsonView,
};
use crate::json_text::json_written;
use crate::logger::{log_file, log_line, log_target, LoggerView};
use crate::paths::{joined_path, path_extension};
use crate::protocol::tool_failure;
use crate::schema::config_rules;
use crate::schema_laws::lemma_field_with;
use crate::search::wanted;
use crate::server::{
    answered, asked, asked_resource, content_job, greeting, line_input, next_turn, resource_index,
    search_tool, sent_content, summary, tool_answer, turns, update_answer, Assets, InputView,
    RouteView, TurnEvent, TurnView, UpdateView,
};
use crate::text::{blank, decimal};
use vstd::prelude::*;

verus! {

// ---------------------------------------------------------------------------
// Requests
// ---------------------------------------------------------------------------

/// The names of requests differ.
proof fn lemma_methods()
    ensures
        "initialize"@.len() == 10,
        "tools/list"@.len() == 10,
        "tools/call"@.len() == 10,
        "resources/list"@.len() == 14,
        "resources/read"@.len() == 14,
        "content/update"@.len() == 14,
        "content/delete"@.len() == 14,
        "content/list"@.len() == 12,
        "initialize"@ != "tools/list"@,
        "initialize"@ != "tools/call"@,
        "tools/list"@ != "tools/call"@,
        "resources/list"@ != "resources/read"@,
        "resources/list"@ != "content/update"@,
        "resources/list"@ != "content/delete"@,
        "resources/read"@ != "content/update"@,
        "resources/read"@ != "content/delete"@,
        "content/update"@ != "content/delete"@,
{
    reveal_strlit("initialize");
    reveal_strlit("tools/list");
    reveal_strlit("tools/call");
    reveal_strlit("resources/list");
    reveal_strlit("resources/read");
    reveal_strlit("content/update");
    reveal_strlit("content/delete");
    reveal_strlit("content/list");
    assert("initialize"@[0] != "tools/list"@[0]);
    assert("initialize"@[0] != "tools/call"@[0]);
    assert("tools/list"@[6] != "tools/call"@[6]);
    assert("resources/list"@[10] != "resources/read"@[10]);
    assert("resources/list"@[0] != "content/update"@[0]);
    assert("resources/list"@[0] != "content/delete"@[0]);
    assert("resources/read"@[0] != "content/update"@[0]);
    assert("resources/read"@[0] != "content/delete"@[0]);
    assert("content/update"@[8] != "content/delete"@[8]);
}

/// Which request asks for what: each is known by its name, a call of a tool names
/// the tool and comes with what was sent, and other names are refused.
pub proof fn law_route(method: Seq<char>, params: JsonView)
    ensures
        asked(method, params) == Ok::<RouteView, Seq<char>>(RouteView::Initialize) <==> method
            == "initialize"@,
        asked(method, params) == Ok::<RouteView, Seq<char>>(RouteView::ListTools) <==> method
            == "tools/list"@,
        asked(method, params) == Ok::<RouteView, Seq<char>>(RouteView::ListResources) <==> method
            == "resources/list"@,
        asked(method, params) == Ok::<RouteView, Seq<char>>(RouteView::ReadResource) <==> method
            == "resources/read"@,
        asked(method, params) == Ok::<RouteView, Seq<char>>(RouteView::UpdateContent) <==> method
            == "content/update"@,
        asked(method, params) == Ok::<RouteView, Seq<char>>(RouteView::DeleteContent) <==> method
            == "content/delete"@,
        asked(method, params) == Ok::<RouteView, Seq<char>>(RouteView::ListContent) <==> method
            == "content/list"@,
        asked(method, params) is Ok && (asked(method, params)->Ok_0 is CallTool) <==> method
            == "tools/call"@ && as_text(field(params, "name"@)) is Some,
        match asked(method, params) {
            Ok(RouteView::CallTool { name, arguments, meta }) => {
                &&& as_text(field(params, "name"@)) == Some(name)
                &&& field(params, "arguments"@) is Some ==> field(params, "arguments"@) == Some(
                    arguments,
                )
                &&& field(params, "arguments"@) is None ==> arguments == JsonView::object()
                &&& field(params, "_meta"@) is Some ==> field(params, "_meta"@) == Some(meta)
                &&& field(params, "_meta"@) is None ==> meta == JsonView::object()
            },
            _ => true,
        },
{
    lemma_methods();
}

/// A response has the id of its request and either the result or an error with the
/// message.
pub proof fn law_answer(id: JsonView, result: Result<JsonView, Seq<char>>)
    ensures
        answered(id, result).id == id,
        answered(id, result).jsonrpc == "2.0"@,
        match result {
            Ok(value) => answered(id, result).result == Some(value) && answered(
                id,
                result,
            ).error is None,
            Err(message) => answered(id, result).result is None && answered(id, result).error is Some
                && (answered(id, result).error->0).1 == message && (answered(id, result).error->0).0
                < 0,
        },
{
}

/// The answer of a tool holds what the tool found, and says in words how much that
/// is.
pub proof fn law_tool_answer(name: Seq<char>, structured: JsonView, count: nat)
    requires
        as_unsigned(field(structured, "count"@)) == Some(count as int),
    ensures
        field(tool_answer(name, structured), "structuredContent"@) == Some(structured),
        field(tool_answer(name, structured), "content"@) is Some,
        ({
            let items = field(tool_answer(name, structured), "content"@)->0;
            &&& items is List
            &&& items->List_0.len() == 1
            &&& field(items->List_0[0], "type"@) == Some(JsonView::Text("text"@))
            &&& field(items->List_0[0], "text"@) == Some(
                JsonView::Text("Found "@ + decimal(count) + " result(s)"@),
            )
        }),
{
    broadcast use lemma_field_with;

    reveal_strlit("content");
    reveal_strlit("structuredContent");
    reveal_strlit("type");
    reveal_strlit("text");
    assert("content"@.len() == 7);
    assert("structuredContent"@.len() == 17);
    assert("type"@[1] != "text"@[1]);
    let first = JsonView::object().with("type"@, JsonView::Text("text"@)).with(
        "text"@,
        JsonView::Text(summary(name, structured)),
    );
    let items = JsonView::list().item(first);
    assert(field(tool_answer(name, structured), "content"@) == Some(items));
    assert(items->List_0[0] == first);
}

// ---------------------------------------------------------------------------
// Resources
// ---------------------------------------------------------------------------

/// The words of a resource differ.
proof fn lemma_resource_words()
    ensures
        "contents"@.len() == 8,
        "uri"@.len() == 3,
        "mimeType"@.len() == 8,
        "text"@.len() == 4,
        "name"@.len() == 4,
        "annotations"@.len() == 11,
        "resources"@.len() == 9,
        "ui://search/index.html"@.len() == 22,
        "ui://search/app.css"@.len() == 19,
        "ui://search/app.js"@.len() == 18,
        "text"@ != "name"@,
{
    reveal_strlit("contents");
    reveal_strlit("uri");
    reveal_strlit("mimeType");
    reveal_strlit("text");
    reveal_strlit("name");
    reveal_strlit("annotations");
    reveal_strlit("resources");
    reveal_strlit("ui://search/index.html");
    reveal_strlit("ui://search/app.css");
    reveal_strlit("ui://search/app.js");
    assert("text"@[0] != "name"@[0]);
}

/// The text of a resource that was asked for.
pub open spec fn resource_text(uri: Seq<char>, assets: Assets) -> Option<Seq<char>> {
    if uri == "ui://search/index.html"@ {
        Some(assets.index_html@)
    } else if uri == "ui://search/app.css"@ {
        Some(assets.app_css@)
    } else if uri == "ui://search/app.js"@ {
        Some(assets.app_js@)
    } else {
        None
    }
}

/// A resource is answered under the address that was asked for, with its own text;
/// other addresses are refused.
pub proof fn law_resource(params: JsonView, assets: Assets)
    ensures
        match asked_resource(params, assets) {
            Ok(value) => {
                let uri = as_text(field(params, "uri"@));
                let items = field(value, "contents"@)->0;
                &&& uri is Some
                &&& field(value, "contents"@) is Some
                &&& items is List
                &&& items->List_0.len() == 1
                &&& field(items->List_0[0], "uri"@) == Some(JsonView::Text(uri->0))
                &&& resource_text(uri->0, assets) is Some
                &&& field(items->List_0[0], "text"@) == Some(
                    JsonView::Text(resource_text(uri->0, assets)->0),
                )
            },
            Err(_) => as_text(field(params, "uri"@)) is None || resource_text(
                as_text(field(params, "uri"@))->0,
                assets,
            ) is None,
        },
{
    broadcast use lemma_field_with;

    lemma_resource_words();
    match asked_resource(params, assets) {
        Ok(value) => {
            let uri = as_text(field(params, "uri"@))->0;
            let kind = if uri == "ui://search/index.html"@ {
                "text/html"@
            } else if uri == "ui://search/app.css"@ {
                "text/css"@
            } else {
                "text/javascript"@
            };
            let text = resource_text(uri, assets)->0;
            let first = JsonView::object().with("uri"@, JsonView::Text(uri)).with(
                "mimeType"@,
                JsonView::Text(kind),
            ).with("text"@, JsonView::Text(text));
            let items = JsonView::list().item(first);
            assert(field(value, "contents"@) == Some(items));
            assert(items->List_0[0] == first);
        },
        Err(_) => {},
    }
}

/// What is listed as a resource can be read under the address that is listed, and is
/// of the kind that is listed.
pub proof fn law_listed_resources_can_be_read(params: JsonView, assets: Assets, i: int)
    requires
        0 <= i < ((field(resource_index(), "resources"@)->0)->List_0).len(),
        as_text(field(params, "uri"@)) == as_text(
            field((field(resource_index(), "resources"@)->0)->List_0[i], "uri"@),
        ),
    ensures
        as_text(field(params, "uri"@)) is Some,
        asked_resource(params, assets) is Ok,
        field(
            (field(asked_resource(params, assets)->Ok_0, "contents"@)->0)->List_0[0],
            "mimeType"@,
        ) == field((field(resource_index(), "resources"@)->0)->List_0[i], "mimeType"@),
{
    broadcast use lemma_field_with;

    lemma_resource_words();
    let all = field(resource_index(), "resources"@)->0;
    let items = all->List_0;
    let first = JsonView::object().with("uri"@, JsonView::Text("ui://search/index.html"@)).with(
        "name"@,
        JsonView::Text("Search"@),
    ).with("mimeType"@, JsonView::Text("text/html"@)).with(
        "annotations"@,
        crate::schema::typed("application"@),
    );
    let second = JsonView::object().with("uri"@, JsonView::Text("ui://search/app.css"@)).with(
        "name"@,
        JsonView::Text("search styles"@),
    ).with("mimeType"@, JsonView::Text("text/css"@));
    let third = JsonView::object().with("uri"@, JsonView::Text("ui://search/app.js"@)).with(
        "name"@,
        JsonView::Text("search script"@),
    ).with("mimeType"@, JsonView::Text("text/javascript"@));
    assert(field(resource_index(), "resources"@) == Some(
        JsonView::list().item(first).item(second).item(third),
    ));
    assert(items.len() == 3);
    assert(items[0] == first);
    assert(items[1] == second);
    assert(items[2] == third);
    let uri = as_text(field(params, "uri"@))->0;
    let kind = if i == 0 {
        "text/html"@
    } else if i == 1 {
        "text/css"@
    } else {
        "text/javascript"@
    };
    let text = resource_text(uri, assets)->0;
    let own = JsonView::object().with("uri"@, JsonView::Text(uri)).with(
        "mimeType"@,
        JsonView::Text(kind),
    ).with("text"@, JsonView::Text(text));
    let contents = JsonView::list().item(own);
    assert(field(asked_resource(params, assets)->Ok_0, "contents"@) == Some(contents));
    assert(contents->List_0[0] == own);
}

// ---------------------------------------------------------------------------
// Contents
// ---------------------------------------------------------------------------

/// What is read of a content that a client sends: its id, its language and its text
/// as they were sent, and its metadata where there is any. A content without an id,
/// or with a blank language or text, is refused.
pub proof fn law_content_is_read(params: JsonView)
    ensures
        sent_content(params) is Ok <==> {
            &&& as_text(field(params, "id"@)) is Some
            &&& as_text(field(params, "language"@)) is Some
            &&& as_text(field(params, "content"@)) is Some
            &&& !blank(as_text(field(params, "language"@))->0)
            &&& !blank(as_text(field(params, "content"@))->0)
        },
        match sent_content(params) {
            Ok(update) => {
                &&& as_text(field(params, "id"@)) == Some(update.id)
                &&& as_text(field(params, "language"@)) == Some(update.language)
                &&& as_text(field(params, "content"@)) == Some(update.content)
                &&& update.metadata is None <==> field(params, "metadata"@) is None || field(
                    params,
                    "metadata"@,
                ) == Some(JsonView::Null)
                &&& update.metadata is Some ==> update.metadata == Some(
                    json_written(field(params, "metadata"@)->0),
                )
            },
            Err(_) => true,
        },
{
}

/// The job for a content is about that content: under its own id and path, with its
/// metadata and the hash of all that is known of it. A language that is not known is
/// refused.
pub proof fn law_content_job(update: UpdateView, language: Option<Seq<char>>)
    ensures
        content_job(update, language) is Ok <==> language is Some,
        match content_job(update, language) {
            Ok(job) => {
                &&& job.source_type == "content"@
                &&& job.source_id == update.id
                &&& job.path == content_path(update.id)
                &&& job.hash == content_hash(update.content, language->0, update.metadata)
                &&& job.metadata == update.metadata
                &&& job.external
            },
            Err(_) => true,
        },
{
}

/// The job for a file is about that file.
pub proof fn law_file_job(path: Seq<char>, source: Seq<char>)
    ensures
        ({
            let job = file_job(path, source);
            &&& job.source_type == "file"@
            &&& job.source_id == path
            &&& job.path == path
            &&& job.hash == text_hash(source)
            &&& job.metadata is None
            &&& !job.external
        }),
{
}

/// Different contents are stored under different paths, and none under the path of a
/// file.
pub proof fn law_content_paths(a: Seq<char>, b: Seq<char>)
    ensures
        content_path(a) == content_path(b) ==> a == b,
        content_path(a).len() == a.len() + 10,
        content_path(a)[0] != '/',
        content_path(a).skip(10) == a,
{
    reveal_strlit("content://");
    assert(content_path(a).skip(10) =~= a);
    assert(content_path(b).skip(10) =~= b);
}

/// What is answered once a content is up to date: its id, its hash, whether it had to
/// be brought up to date, and how many chunks were written.
pub proof fn law_update_is_answered(id: Seq<char>, hash: Seq<char>, outcome: Outcome)
    ensures
        ({
            let value = update_answer(id, hash, outcome);
            &&& field(value, "id"@) == Some(JsonView::Text(id))
            &&& field(value, "hash"@) == Some(JsonView::Text(hash))
            &&& field(value, "updated"@) == Some(JsonView::Bool(outcome != Outcome::Unchanged))
            &&& field(value, "chunks"@) == Some(
                unsigned(
                    if outcome is Written {
                        outcome->Written_0 as int
                    } else {
                        0
                    },
                ),
            )
        }),
{
    broadcast use lemma_field_with;

    reveal_strlit("id");
    reveal_strlit("hash");
    reveal_strlit("updated");
    reveal_strlit("chunks");
    assert("id"@.len() == 2);
    assert("hash"@.len() == 4);
    assert("updated"@.len() == 7);
    assert("chunks"@.len() == 6);
}

// ---------------------------------------------------------------------------
// The log
// ---------------------------------------------------------------------------

/// A line of the log is one line where its parts are, and starts with its time and
/// ends with its message.
pub proof fn law_log_line(level: Seq<char>, message: Seq<char>, timestamp: Seq<char>)
    ensures
        ({
            let line = log_line(level, message, timestamp);
            &&& line.len() == timestamp.len() + level.len() + message.len() + 5
            &&& line.take(timestamp.len() as int) == timestamp
            &&& line.subrange(
                (timestamp.len() + 2) as int,
                (timestamp.len() + 2 + level.len()) as int,
            ) == level
            &&& line.subrange(line.len() - 1 - message.len(), line.len() - 1) == message
            &&& line.last() == '\n'
            &&& !timestamp.contains('\n') && !level.contains('\n') && !message.contains('\n')
                ==> forall|k: int| 0 <= k < line.len() - 1 ==> #[trigger] line[k] != '\n'
        }),
{
    reveal_strlit(" [");
    reveal_strlit("] ");
    reveal_strlit("\n");
    let line = log_line(level, message, timestamp);
    let a = timestamp.len() as int;
    let b = level.len() as int;
    let c = message.len() as int;
    assert(line.take(a) =~= timestamp);
    assert(line.subrange(a + 2, a + 2 + b) =~= level);
    assert(line.subrange(line.len() - 1 - c, line.len() - 1) =~= message);
    if !timestamp.contains('\n') && !level.contains('\n') && !message.contains('\n') {
        assert forall|k: int| 0 <= k < line.len() - 1 implies #[trigger] line[k] != '\n' by {
            if k < a {
                assert(line[k] == timestamp[k]);
                assert(timestamp.contains(timestamp[k]));
            } else if a + 2 <= k < a + 2 + b {
                assert(line[k] == level[k - a - 2]);
                assert(level.contains(level[k - a - 2]));
            } else if a + b + 4 <= k {
                assert(line[k] == message[k - a - b - 4]);
                assert(message.contains(message[k - a - b - 4]));
            }
        }
    }
}

/// Each day has a file of its own.
pub proof fn law_days_have_files(state: LoggerView, other: Seq<char>)
    ensures
        log_file(state) == log_file(LoggerView { date: other, ..state }) ==> state.date == other,
{
    reveal_strlit("-");
    reveal_strlit(".log");
    reveal_strlit("/");
    let one = state.base_name + "-"@ + state.date + ".log"@;
    let two = state.base_name + "-"@ + other + ".log"@;
    if log_file(state) == log_file(LoggerView { date: other, ..state }) {
        let size = state.base_name.len() as int;
        assert(one[0] == two[0]) by {
            if size > 0 {
                assert(one[0] == state.base_name[0]);
                assert(two[0] == state.base_name[0]);
            } else {
                assert(one[0] == '-');
                assert(two[0] == '-');
            }
        }
        let full = joined_path(state.dir, one);
        let more = joined_path(state.dir, two);
        assert(full.skip(full.len() - one.len()) =~= one);
        assert(more.skip(more.len() - two.len()) =~= two);
        assert(full.len() == more.len());
        assert(one.len() == two.len());
        assert(one == two);
        assert(one.subrange(size + 1, one.len() - 4) =~= state.date);
        assert(two.subrange(size + 1, two.len() - 4) =~= other);
    }
}

/// The log goes to the directory that is configured, or to the one of the file that
/// is configured where its name ends with `log`.
pub proof fn law_log_target(path: Seq<char>, cwd: Seq<char>, is_dir: bool)
    ensures
        ({
            let place = joined_path(cwd, path);
            let target = log_target(Some(path), cwd, is_dir);
            &&& is_dir || path_extension(place) != Some("log"@) ==> target.0 == place
            &&& !is_dir && path_extension(place) == Some("log"@) && crate::paths::path_parent(
                place,
            ) is Some ==> target.0 == crate::paths::path_parent(place)->0
            &&& !is_dir && path_extension(place) == Some("log"@) && crate::paths::path_stem(
                place,
            ) is Some ==> target.1 == crate::paths::path_stem(place)->0
            &&& log_target(None, cwd, is_dir).0 == cwd
        }),
{
}

// ---------------------------------------------------------------------------
// Input
// ---------------------------------------------------------------------------

/// A line of input holds one request, or several in their order; one that cannot be
/// read is refused with the reason.
pub proof fn law_line_of_input(parsed: Result<JsonView, Seq<char>>)
    ensures
        match line_input(parsed) {
            InputView::Refused(response) => {
                &&& parsed is Err
                &&& response.id == JsonView::Null
                &&& response.result is None
                &&& response.error is Some
                &&& (response.error->0).1 == parsed->Err_0
            },
            InputView::Batch(items) => parsed is Ok && parsed->Ok_0 == JsonView::List(items),
            InputView::One(value) => parsed == Ok::<JsonView, Seq<char>>(value) && !(value is List),
        },
{
}

/// What is told of a tool that failed: its name and the reason.
pub proof fn law_tool_failure(name: Seq<char>, message: Seq<char>)
    ensures
        field(tool_failure(name, message), "tool"@) == Some(JsonView::Text(name)),
        field(tool_failure(name, message), "error"@) == Some(JsonView::Text(message)),
{
    broadcast use lemma_field_with;

    reveal_strlit("tool");
    reveal_strlit("error");
    assert("tool"@.len() == 4);
    assert("error"@.len() == 5);
}

/// A list of texts is told text by text.
pub proof fn law_texts_are_told(list: Seq<Seq<char>>)
    ensures
        text_items(list).len() == list.len(),
        forall|i: int|
            0 <= i < list.len() ==> #[trigger] text_items(list)[i] == JsonView::Text(list[i]),
{
}

/// Of entries with one key the first counts.
pub proof fn law_first_entry_counts(entries: Seq<EntryView>, at: int)
    requires
        0 <= at < entries.len(),
        forall|k: int| 0 <= k < at ==> (#[trigger] entries[k]).key != entries[at].key,
    ensures
        entry(entries, entries[at].key) == Some(entries[at].value),
    decreases entries.len(),
{
    if at > 0 {
        let rest = entries.drop_first();
        assert(entries[0].key != entries[at].key);
        assert(rest[at - 1] == entries[at]);
        assert forall|k: int| 0 <= k < at - 1 implies (#[trigger] rest[k]).key
            != rest[at - 1].key by {
            assert(entries[k + 1] == rest[k]);
        }
        law_first_entry_counts(rest, at - 1);
    }
}

/// Plain values are read as what they are.
pub proof fn law_plain_values(text: Seq<char>, number: int)
    ensures
        as_text(Some(JsonView::Text(text))) == Some(text),
        as_unsigned(Some(unsigned(number))) == Some(number),
        as_text(Some(unsigned(number))) is None,
        as_unsigned(Some(JsonView::Text(text))) is None,
        as_text(None) is None,
        as_unsigned(None) is None,
{
}

/// The server tells which settings it takes.
pub proof fn law_greeting_tells_settings()
    ensures
        field(greeting(), "configSchema"@) == Some(config_rules()),
{
    broadcast use lemma_field_with;

    reveal_strlit("serverInfo");
    reveal_strlit("configSchema");
    reveal_strlit("capabilities");
    assert("serverInfo"@.len() == 10);
    assert("configSchema"@[1] != "capabilities"@[1]);
}

/// What is said of the search tool holds of it: the limit that it names is the one
/// that is used where a call gives none, and it needs what it says that it needs.
pub proof fn law_tool_tells_limit()
    ensures
        ({
            let rules = field(search_tool(), "inputSchema"@)->0;
            let limit = field(field(rules, "properties"@)->0, "limit"@)->0;
            &&& field(limit, "default"@) == Some(unsigned(wanted(None, None)))
            &&& field(rules, "required"@) == Some(
                JsonView::list().item(JsonView::Text("query"@)),
            )
            &&& field(field(rules, "properties"@)->0, "query"@) is Some
        }),
{
    broadcast use lemma_field_with;

    reveal_strlit("name");
    reveal_strlit("description");
    reveal_strlit("intentTemplate");
    reveal_strlit("annotations");
    reveal_strlit("inputSchema");
    reveal_strlit("type");
    reveal_strlit("additionalProperties");
    reveal_strlit("properties");
    reveal_strlit("required");
    reveal_strlit("query");
    reveal_strlit("limit");
    reveal_strlit("minimum");
    reveal_strlit("default");
    assert("inputSchema"@.len() == 11);
    assert("name"@.len() == 4);
    assert("intentTemplate"@.len() == 14);
    assert("inputSchema"@[0] != "description"@[0]);
    assert("inputSchema"@[0] != "annotations"@[0]);
    assert("type"@.len() == 4);
    assert("additionalProperties"@.len() == 20);
    assert("properties"@.len() == 10);
    assert("required"@.len() == 8);
    assert("query"@[0] != "limit"@[0]);
    assert("minimum"@[0] != "default"@[0]);
    assert("default"@.len() == 7);
}

/// A request whose steps succeed is handled, and answered with what came of it; an
/// `initialize` request once the log is open and the work in the background started
/// anew.
pub proof fn law_request_is_handled(
    id: JsonView,
    method: Seq<char>,
    events: Seq<TurnEvent>,
    result: Result<Json, String>,
)
    requires
        events.last() == TurnEvent::Handled(result),
        method == "initialize"@ ==> events.len() == 4 && events[1] == TurnEvent::Opened(Ok(()))
            && events[2] == TurnEvent::Restarted,
        method != "initialize"@ ==> events.len() == 2,
        events[0] == TurnEvent::Settled(Ok(())),
    ensures
        ({
            let end = turns(id, method, TurnView::Settle, events);
            &&& end is Done
            &&& end->Done_0.id == id
            &&& match result {
                Ok(value) => end->Done_0.result == Some(value@) && end->Done_0.error is None,
                Err(message) => end->Done_0.result is None && end->Done_0.error is Some && (
                end->Done_0.error->0).1 == message@,
            }
        }),
{
    reveal_with_fuel(turns, 5);
    assert(events.drop_first()[0] == events[1]);
    if method == "initialize"@ {
        assert(events.drop_first().drop_first()[0] == events[2]);
        assert(events.drop_first().drop_first().drop_first()[0] == events[3]);
    }
}

/// Where the log cannot be opened, an `initialize` request is answered with the
/// reason.
pub proof fn law_log_failure_is_answered(id: JsonView, message: String)
    ensures
        ({
            let end = next_turn(
                id,
                "initialize"@,
                TurnView::OpenLog,
                TurnEvent::Opened(Err(message)),
            );
            &&& end is Done
            &&& end->Done_0.id == id
            &&& end->Done_0.result is None
            &&& end->Done_0.error is Some
            &&& (end->Done_0.error->0).1 == message@
        }),
{
}

} // verus!
