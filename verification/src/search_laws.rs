//! What holds of every search.
use crate::chunker::{chunk_header, context_line, piece, pieces};
use crate::config::{ConfigView, RootInputView};
use crate::globs::{admits, matches_any, pattern_set};
use crate::json::JsonView;
use crate::lines::{bytes_of, cut_out};
use crate::paths::{below, under};
use crate::policy::{call_config, root_admits, SettingsView};
use crate::policy_laws::{config_admits, law_call_stays_in_roots, stems_from};
use crate::search::{call_filter, picked, room_for, room_in, root_filter, speaks, stripped};
use crate::spans::Span;
use crate::store::{
    first_root, found_row, kept_all, kept_rows, passes, passes_globs, search_results, FilterView,
    FoundColumns, ResultView, RootFilterView,
};
use crate::text::{decimal, first_from, lemma_first_from, stands_at};
use vstd::prelude::*;
use vstd::utf8::*;

verus! {

// ---------------------------------------------------------------------------
// Headers
// ---------------------------------------------------------------------------

/// Whether a text is one line with its line feed, and not an empty one.
pub open spec fn whole_line(text: Seq<char>) -> bool {
    &&& text.len() >= 2
    &&& text.last() == '\n'
    &&& forall|k: int| 0 <= k < text.len() - 1 ==> #[trigger] text[k] != '\n'
}

/// Whether a text is made of lines that are not empty.
pub open spec fn full_lines(text: Seq<char>) -> bool {
    &&& text.len() > 0 ==> text.last() == '\n' && text[0] != '\n'
    &&& forall|k: int|
        0 <= k < text.len() - 1 && #[trigger] text[k] == '\n' ==> text[k + 1] != '\n'
}

/// Lines one behind the other are lines.
pub proof fn lemma_more_lines(text: Seq<char>, line: Seq<char>)
    requires
        full_lines(text),
        whole_line(line),
    ensures
        full_lines(text + line),
{
    let all = text + line;
    assert forall|k: int| 0 <= k < all.len() - 1 && #[trigger] all[k] == '\n' implies all[k + 1]
        != '\n' by {
        if k < text.len() - 1 {
            assert(text[k] == '\n');
        } else if k == text.len() - 1 {
            assert(all[k + 1] == line[0]);
            assert(line[0] != '\n');
        } else {
            assert(line[k - text.len()] == '\n');
        }
    }
}

/// The first empty line stands behind lines that are not empty.
pub proof fn lemma_first_empty_line(lines: Seq<char>, body: Seq<char>)
    requires
        full_lines(lines),
        lines.len() > 0,
    ensures
        stripped(lines + "\n"@ + body) == body,
{
    reveal_strlit("\n");
    reveal_strlit("\n\n");
    let text = lines + "\n"@ + body;
    let pair = "\n\n"@;
    let at = lines.len() - 1;
    assert(text.subrange(at, at + 2) =~= pair);
    assert(stands_at(text, pair, at));
    lemma_first_from(text, pair, 0);
    let found = first_from(text, pair, 0)->0;
    if found < at {
        assert(text.subrange(found, found + 2)[0] == pair[0]);
        assert(text.subrange(found, found + 2)[1] == pair[1]);
        assert(lines[found] == '\n');
        assert(lines[found + 1] == '\n');
    }
    assert(found == at);
    assert(text.skip(at + 2) =~= body);
}

/// A label, a value without line feeds and a line feed make a line.
pub proof fn lemma_line(label: Seq<char>, value: Seq<char>)
    requires
        label.len() > 0,
        !label.contains('\n'),
        !value.contains('\n'),
    ensures
        whole_line(label + value + "\n"@),
{
    reveal_strlit("\n");
    let line = label + value + "\n"@;
    assert forall|k: int| 0 <= k < line.len() - 1 implies #[trigger] line[k] != '\n' by {
        if k < label.len() {
            if label[k] == '\n' {
                assert(label.contains('\n'));
            }
        } else if value[k - label.len()] == '\n' {
            assert(value.contains('\n'));
        }
    }
}

/// A number is written without line feeds.
proof fn lemma_decimal(n: nat)
    ensures
        !decimal(n).contains('\n'),
    decreases n,
{
    if n >= 10 {
        lemma_decimal(n / 10);
        let front = decimal(n / 10);
        let all = decimal(n);
        assert forall|k: int| 0 <= k < all.len() implies all[k] != '\n' by {
            if k < front.len() {
                if front[k] == '\n' {
                    assert(front.contains('\n'));
                }
            } else {
                assert(48 <= (48 + n % 10) < 58);
            }
        }
    } else {
        assert(48 <= (48 + n) < 58);
    }
}

/// A line behind others may be read as one.
proof fn lemma_as_line(front: Seq<char>, label: Seq<char>, value: Seq<char>, end: Seq<char>)
    ensures
        front + label + value + end == front + (label + value + end),
{
    assert(front + label + value + end =~= front + (label + value + end));
}

/// The range of lines in a header holds no line feed.
proof fn lemma_range(first: nat, last: nat)
    ensures
        !(decimal(first) + "-"@ + decimal(last)).contains('\n'),
{
    reveal_strlit("-");
    lemma_decimal(first);
    lemma_decimal(last);
    let range = decimal(first) + "-"@ + decimal(last);
    if range.contains('\n') {
        let k = choose|k: int| 0 <= k < range.len() && range[k] == '\n';
        let len = decimal(first).len() as int;
        if k < len {
            assert(decimal(first)[k] == '\n');
        } else if k > len {
            assert(decimal(last)[k - len - 1] == '\n');
        }
    }
}

/// One more line of a header.
proof fn lemma_header_line(front: Seq<char>, label: Seq<char>, value: Seq<char>)
    requires
        full_lines(front),
        label.len() > 0,
        !label.contains('\n'),
        !value.contains('\n'),
    ensures
        full_lines(front + label + value + "\n"@),
        (front + label + value + "\n"@).len() > 0,
{
    lemma_line(label, value);
    lemma_more_lines(front, label + value + "\n"@);
    lemma_as_line(front, label, value, "\n"@);
}

/// The labels of a header hold no line feed.
proof fn lemma_labels()
    ensures
        "FILE: "@.len() > 0 && !"FILE: "@.contains('\n'),
        "LANG: "@.len() > 0 && !"LANG: "@.contains('\n'),
        "KIND: "@.len() > 0 && !"KIND: "@.contains('\n'),
        "LINES: "@.len() > 0 && !"LINES: "@.contains('\n'),
        "PATH: "@.len() > 0 && !"PATH: "@.contains('\n'),
{
    reveal_strlit("FILE: ");
    reveal_strlit("LANG: ");
    reveal_strlit("KIND: ");
    reveal_strlit("LINES: ");
    reveal_strlit("PATH: ");
}

/// The lines of a header, without the empty line behind them.
pub open spec fn header_lines(
    path: Seq<char>,
    language: Seq<char>,
    span: Span,
    context: Option<Seq<char>>,
) -> Seq<char> {
    "FILE: "@ + path + "\n"@ + "LANG: "@ + language + "\n"@ + "KIND: "@ + span.kind + "\n"@
        + "LINES: "@ + decimal(span.first_line as nat) + "-"@ + decimal(span.last_line as nat)
        + "\n"@ + context_line(context)
}

/// The lines of a header are not empty.
pub proof fn lemma_header_lines(
    path: Seq<char>,
    language: Seq<char>,
    span: Span,
    context: Option<Seq<char>>,
)
    requires
        !path.contains('\n'),
        !language.contains('\n'),
        !span.kind.contains('\n'),
        context is Some ==> !(context->0).contains('\n'),
    ensures
        full_lines(header_lines(path, language, span, context)),
        header_lines(path, language, span, context).len() > 0,
        chunk_header(path, language, span, context) == header_lines(path, language, span, context)
            + "\n"@,
{
    lemma_labels();
    let none = Seq::<char>::empty();
    let first = decimal(span.first_line as nat);
    let last = decimal(span.last_line as nat);
    lemma_range(span.first_line as nat, span.last_line as nat);
    lemma_header_line(none, "FILE: "@, path);
    assert(none + "FILE: "@ =~= "FILE: "@);
    let one = "FILE: "@ + path + "\n"@;
    lemma_header_line(one, "LANG: "@, language);
    let two = one + "LANG: "@ + language + "\n"@;
    lemma_header_line(two, "KIND: "@, span.kind);
    let three = two + "KIND: "@ + span.kind + "\n"@;
    lemma_header_line(three, "LINES: "@, first + "-"@ + last);
    lemma_as_line(three + "LINES: "@, first, "-"@, last);
    let four = three + "LINES: "@ + first + "-"@ + last + "\n"@;
    match context {
        Some(text) => {
            lemma_header_line(four, "PATH: "@, text);
            lemma_as_line(four, "PATH: "@, text, "\n"@);
        },
        None => {
            assert(four + none =~= four);
        },
    }
}

/// A search gives back what a chunk was cut from: its header is taken away, as
/// long as nothing in the header breaks its lines.
pub proof fn law_header_is_stripped(
    path: Seq<char>,
    language: Seq<char>,
    span: Span,
    context: Option<Seq<char>>,
    body: Seq<char>,
)
    requires
        !path.contains('\n'),
        !language.contains('\n'),
        !span.kind.contains('\n'),
        context is Some ==> !(context->0).contains('\n'),
    ensures
        stripped(chunk_header(path, language, span, context) + body) == body,
{
    lemma_header_lines(path, language, span, context);
    lemma_first_empty_line(header_lines(path, language, span, context), body);
}

/// A search gives back the piece of the source that a chunk was cut from, as long
/// as nothing in its header breaks its lines.
pub proof fn law_search_gives_back_source(
    path: Seq<char>,
    language: Seq<char>,
    bytes: Seq<u8>,
    spans: Seq<Span>,
    contexts: Seq<Option<Option<Seq<char>>>>,
    i: int,
)
    requires
        pieces(path, language, bytes, spans, contexts) is Some,
        0 <= i < spans.len(),
        !path.contains('\n'),
        !language.contains('\n'),
        !spans[i].kind.contains('\n'),
        match contexts[i] {
            Some(Some(context)) => !context.contains('\n'),
            _ => true,
        },
    ensures
        stripped(pieces(path, language, bytes, spans, contexts)->0[i].text) == decode_utf8(
            cut_out(bytes, spans[i].start, spans[i].end),
        ),
{
    assert(piece(path, language, bytes, spans[i], contexts[i]) is Some);
    law_header_is_stripped(
        path,
        language,
        spans[i],
        contexts[i]->0,
        decode_utf8(cut_out(bytes, spans[i].start, spans[i].end)),
    );
}

// ---------------------------------------------------------------------------
// What a call gets
// ---------------------------------------------------------------------------

/// The chunks in the languages of a call.
pub open spec fn spoken(results: Seq<ResultView>, settings: SettingsView) -> Seq<ResultView>
    decreases results.len(),
{
    if results.len() == 0 {
        results
    } else if speaks(results[0], settings) {
        seq![results[0]] + spoken(results.drop_first(), settings)
    } else {
        spoken(results.drop_first(), settings)
    }
}

/// The bytes of the texts of chunks.
pub open spec fn text_bytes(results: Seq<ResultView>) -> int
    decreases results.len(),
{
    if results.len() == 0 {
        0
    } else {
        bytes_of(results[0].chunk.text).len() + text_bytes(results.drop_first())
    }
}

/// A call gets the best chunks in its languages, no more than its policy allows
/// and no more bytes than its policy allows.
pub proof fn law_picked(results: Seq<ResultView>, settings: SettingsView)
    requires
        settings.max_results is Some ==> settings.max_results->0 >= 0,
        settings.max_bytes is Some ==> settings.max_bytes->0 >= 0,
    ensures
        picked(results, settings, 0, 0).is_prefix_of(spoken(results, settings)),
        forall|i: int|
            0 <= i < picked(results, settings, 0, 0).len() ==> speaks(
                #[trigger] picked(results, settings, 0, 0)[i],
                settings,
            ),
        settings.max_results is Some ==> picked(results, settings, 0, 0).len()
            <= settings.max_results->0,
        settings.max_bytes is Some ==> text_bytes(picked(results, settings, 0, 0))
            <= settings.max_bytes->0,
        settings.max_results is None && settings.max_bytes is None ==> picked(
            results,
            settings,
            0,
            0,
        ) == spoken(results, settings),
{
    lemma_picked(results, settings, 0, 0);
}

/// What a call gets, after some chunks.
proof fn lemma_picked(results: Seq<ResultView>, settings: SettingsView, count: int, bytes: int)
    requires
        0 <= count,
        0 <= bytes,
        settings.max_results is Some ==> count <= settings.max_results->0,
        settings.max_bytes is Some ==> bytes <= settings.max_bytes->0,
    ensures
        ({
            let out = picked(results, settings, count, bytes);
            &&& out.is_prefix_of(spoken(results, settings))
            &&& forall|i: int| 0 <= i < out.len() ==> speaks(#[trigger] out[i], settings)
            &&& settings.max_results is Some ==> count + out.len() <= settings.max_results->0
            &&& settings.max_bytes is Some ==> bytes + text_bytes(out) <= settings.max_bytes->0
            &&& settings.max_results is None && settings.max_bytes is None ==> out == spoken(
                results,
                settings,
            )
        }),
    decreases results.len(),
{
    let out = picked(results, settings, count, bytes);
    let all = spoken(results, settings);
    if results.len() == 0 || !room_for(settings, count) {
        assert(all.subrange(0, 0) =~= out);
    } else if !speaks(results[0], settings) {
        lemma_picked(results.drop_first(), settings, count, bytes);
    } else {
        let next = bytes + bytes_of(results[0].chunk.text).len();
        if !room_in(settings, next) {
            assert(all.subrange(0, 0) =~= out);
        } else {
            let behind = results.drop_first();
            lemma_picked(behind, settings, count + 1, next);
            let rest = picked(behind, settings, count + 1, next);
            assert(out.drop_first() =~= rest);
            assert(all.drop_first() =~= spoken(behind, settings));
            assert(out =~= all.subrange(0, out.len() as int)) by {
                assert forall|i: int| 0 <= i < out.len() implies out[i] == all[i] by {
                    if i > 0 {
                        assert(out[i] == rest[i - 1]);
                        assert(all[i] == spoken(behind, settings)[i - 1]);
                        assert(spoken(behind, settings).subrange(0, rest.len() as int)[i - 1]
                            == rest[i - 1]);
                    }
                }
            }
            assert forall|i: int| 0 <= i < out.len() implies speaks(
                #[trigger] out[i],
                settings,
            ) by {
                if i > 0 {
                    assert(out[i] == rest[i - 1]);
                }
            }
        }
    }
}

// ---------------------------------------------------------------------------
// What the store gives back
// ---------------------------------------------------------------------------

/// Whether a chunk is a row of a batch.
pub open spec fn row_of(columns: FoundColumns, found: ResultView) -> bool {
    exists|i: int| 0 <= i < columns.rows && #[trigger] found_row(columns, i) == found
}

/// The rows of a batch that are kept are those that pass.
proof fn lemma_kept_rows(
    columns: FoundColumns,
    before: int,
    filter: FilterView,
    found: ResultView,
)
    requires
        0 <= before,
    ensures
        kept_rows(columns, before, filter).contains(found) <==> passes(found, filter) && exists|i: int| 0 <= i < before && #[trigger] found_row(columns, i) == found,
    decreases before,
{
    let all = kept_rows(columns, before, filter);
    if before > 0 {
        let init = kept_rows(columns, before - 1, filter);
        let row = found_row(columns, before - 1);
        lemma_kept_rows(columns, before - 1, filter, found);
        if init.contains(found) {
            let k = choose|k: int| 0 <= k < init.len() && init[k] == found;
            assert(all[k] == found);
        }
        if passes(row, filter) {
            assert(all[init.len() as int] == row);
        }
        if all.contains(found) {
            let k = choose|k: int| 0 <= k < all.len() && all[k] == found;
            if k < init.len() {
                assert(init[k] == found);
            } else {
                assert(found_row(columns, before - 1) == found);
            }
        }
    }
}

/// A search gives back exactly the rows that its filter lets pass.
pub proof fn law_search_results(
    batches: Seq<FoundColumns>,
    filter: FilterView,
    found: ResultView,
)
    requires
        search_results(batches, filter) is Ok,
    ensures
        search_results(batches, filter)->Ok_0.contains(found) <==> passes(found, filter)
            && exists|b: int| 0 <= b < batches.len() && row_of(#[trigger] batches[b], found),
{
    lemma_kept_all(batches, filter, found);
}

/// The rows of batches that are kept are those that pass.
proof fn lemma_kept_all(
    batches: Seq<FoundColumns>,
    filter: FilterView,
    found: ResultView,
)
    requires
        kept_all(batches, filter) is Ok,
    ensures
        kept_all(batches, filter)->Ok_0.contains(found) <==> passes(found, filter) && exists|b: int| 0 <= b < batches.len() && row_of(#[trigger] batches[b], found),
    decreases batches.len(),
{
    if batches.len() > 0 {
        let before = batches.drop_last();
        let last = batches.last();
        lemma_kept_all(before, filter, found);
        lemma_kept_rows(last, last.rows as int, filter, found);
        let init = kept_all(before, filter)->Ok_0;
        let rows = kept_rows(last, last.rows as int, filter);
        let all = kept_all(batches, filter)->Ok_0;
        assert(all == init + rows);
        if init.contains(found) {
            let k = choose|k: int| 0 <= k < init.len() && init[k] == found;
            assert(all[k] == found);
            let b = choose|b: int| 0 <= b < before.len() && row_of(#[trigger] before[b], found);
            assert(row_of(batches[b], found));
        }
        if rows.contains(found) {
            let k = choose|k: int| 0 <= k < rows.len() && rows[k] == found;
            assert(all[init.len() + k] == found);
            assert(row_of(batches[batches.len() - 1], found));
        }
        if all.contains(found) {
            let k = choose|k: int| 0 <= k < all.len() && all[k] == found;
            if k < init.len() {
                assert(init[k] == found);
            } else {
                assert(rows[k - init.len()] == found);
            }
        }
        if exists|b: int| 0 <= b < batches.len() && row_of(#[trigger] batches[b], found) {
            let b = choose|b: int| 0 <= b < batches.len() && row_of(#[trigger] batches[b], found);
            if b < before.len() {
                assert(row_of(before[b], found));
            }
        }
    }
}

/// Nothing outside the roots is given back. What is given back passes the patterns
/// of the first root that it is under, each list of them for itself, and those of
/// the filter.
pub proof fn law_denied_is_not_found(found: ResultView, filter: FilterView)
    requires
        passes(found, filter),
        filter.allowed_roots.len() > 0,
    ensures
        ({
            let path = found.chunk.path;
            let at = first_root(filter.allowed_roots, path);
            &&& 0 <= at < filter.allowed_roots.len()
            &&& under(path, filter.allowed_roots[at].path)
            &&& {
                let root = filter.allowed_roots[at];
                let rest = below(path, root.path);
                rest.len() > 0 ==> admits(root.allow, root.deny, rest) && admits(
                    Seq::empty().push(filter.allow_globs),
                    filter.deny_globs,
                    rest,
                )
            }
        }),
{
    let path = found.chunk.path;
    let roots = filter.allowed_roots;
    let at = first_root(roots, path);
    lemma_first_root(roots, path);
    let root = roots[at];
    let rest = below(path, root.path);
    if rest.len() > 0 {
        assert forall|i: int|
            0 <= i < root.allow.len() && (#[trigger] root.allow[i]).len() > 0 implies matches_any(
            root.allow[i],
            rest,
        ) by {
            assert(passes_globs(path, root.path, pattern_set(root.allow[i]), None));
        }
    }
}

/// Whatever its policy, what a call gets of a root passes the patterns that are
/// configured for that root.
pub proof fn law_results_pass_config(
    config: ConfigView,
    meta: JsonView,
    inputs: Result<Seq<RootInputView>, Seq<char>>,
    cwd: Seq<char>,
    found: ResultView,
)
    requires
        call_config(config, meta, inputs, cwd) is Ok,
        call_config(config, meta, inputs, cwd)->Ok_0.roots.len() > 0,
        passes(found, call_filter(call_config(config, meta, inputs, cwd)->Ok_0)),
    ensures
        exists|j: int|
            0 <= j < config.roots.len() && under(
                found.chunk.path,
                (#[trigger] config.roots[j]).path,
            ) && {
                let rest = below(found.chunk.path, config.roots[j].path);
                rest.len() > 0 ==> config_admits(config.roots[j], rest)
            },
{
    let call = call_config(config, meta, inputs, cwd)->Ok_0;
    let filter = call_filter(call);
    law_denied_is_not_found(found, filter);
    let at = first_root(filter.allowed_roots, found.chunk.path);
    assert(filter.allowed_roots[at] == root_filter(call.roots[at]));
    law_call_stays_in_roots(config, meta, inputs, cwd, at);
    let j = choose|j: int|
        0 <= j < config.roots.len() && stems_from(call.roots[at], #[trigger] config.roots[j]);
    let rest = below(found.chunk.path, config.roots[j].path);
    if rest.len() > 0 {
        assert(root_admits(call.roots[at], rest));
    }
    assert(under(found.chunk.path, config.roots[j].path));
}

/// The first root that a path is under is one that it is under.
proof fn lemma_first_root(roots: Seq<RootFilterView>, path: Seq<char>)
    ensures
        0 <= first_root(roots, path) <= roots.len(),
        first_root(roots, path) < roots.len() ==> under(
            path,
            roots[first_root(roots, path)].path,
        ),
    decreases roots.len(),
{
    if roots.len() > 0 && !under(path, roots[0].path) {
        lemma_first_root(roots.drop_first(), path);
    }
}

} // verus!
