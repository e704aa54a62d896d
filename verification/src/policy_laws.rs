//! What holds of every configuration and every policy.
use crate::config::{
    all_changed, asked_roots, changed, default_index, final_roots, gives_store, initial_config,
    overridden, tokens_within, ConfigView, DecodedView, RootInputView, RootView, SurroundingsView,
};
use crate::globs::{admits, glob_matches, matches_any};
use crate::json::{as_unsigned, entry, field, EntryView, JsonView};
use crate::paths::joined_path;
use crate::policy::{
    allow_lists, call_config, call_root, call_roots, named_root, narrowed, open_roots, policy_of,
    policy_root, policy_roots, root_admits, under_policy, CallRootView,
};
use vstd::prelude::*;

verus! {

// ---------------------------------------------------------------------------
// Default roots
// ---------------------------------------------------------------------------

/// Whether exactly one root is the default.
pub open spec fn one_default(roots: Seq<RootView>) -> bool {
    exists|i: int|
        0 <= i < roots.len() && (#[trigger] roots[i]).default && forall|j: int|
            0 <= j < roots.len() && j != i ==> !(#[trigger] roots[j]).default
}

/// The position of the default is one of the positions.
proof fn lemma_default_index(roots: Seq<RootView>, from: int)
    requires
        0 <= from,
        roots.len() > 0,
    ensures
        0 <= default_index(roots, from) < roots.len(),
    decreases roots.len() - from,
{
    if from < roots.len() && !roots[from].default {
        lemma_default_index(roots, from + 1);
    }
}

/// Once roots are settled, exactly one is the default, and the default paths are
/// its paths.
pub proof fn law_one_default(roots: Seq<RootView>)
    requires
        roots.len() > 0,
    ensures
        final_roots(roots) is Ok,
        one_default(final_roots(roots)->Ok_0.0),
        exists|i: int|
            0 <= i < roots.len() && (#[trigger] final_roots(roots)->Ok_0.0[i]).default
                && final_roots(roots)->Ok_0.0[i].path == final_roots(roots)->Ok_0.1
                && final_roots(roots)->Ok_0.0[i].path_canon == final_roots(roots)->Ok_0.2,
{
    lemma_default_index(roots, 0);
    let at = default_index(roots, 0);
    let out = final_roots(roots)->Ok_0.0;
    assert(out[at].default);
}

/// One setting leaves the roots without any, or with exactly one default.
proof fn lemma_changed_keeps_default(
    config: ConfigView,
    key: Seq<char>,
    value: JsonView,
    all: JsonView,
    decoded: DecodedView,
    world: SurroundingsView,
)
    requires
        config.roots.len() == 0 || one_default(config.roots),
        changed(config, key, value, all, decoded, world) is Ok,
    ensures
        ({
            let next = changed(config, key, value, all, decoded, world)->Ok_0;
            next.roots.len() == 0 || one_default(next.roots)
        }),
{
    if key == "roots"@ {
        let inputs = decoded.roots->Ok_0;
        if inputs.len() > 0 {
            law_one_default(asked_roots(inputs, world)->Ok_0);
        }
    }
}

/// Whatever a client sets, there is no root or exactly one of them is the
/// default; at the start exactly one is.
pub proof fn law_settings_keep_one_default(
    config: ConfigView,
    value: JsonView,
    decoded: DecodedView,
    world: SurroundingsView,
)
    requires
        config.roots.len() == 0 || one_default(config.roots),
    ensures
        match overridden(config, value, decoded, world) {
            Ok(next) => next.roots.len() == 0 || one_default(next.roots),
            Err(_) => true,
        },
        one_default(initial_config(world).roots),
{
    assert(initial_config(world).roots[0].default);
    match value {
        JsonView::Object(settings) => {
            lemma_all_keep_default(config, settings, value, decoded, world);
        },
        _ => {},
    }
}

/// Settings leave the roots without any, or with exactly one default.
proof fn lemma_all_keep_default(
    config: ConfigView,
    settings: Seq<EntryView>,
    all: JsonView,
    decoded: DecodedView,
    world: SurroundingsView,
)
    requires
        config.roots.len() == 0 || one_default(config.roots),
    ensures
        match all_changed(config, settings, all, decoded, world) {
            Ok(next) => next.roots.len() == 0 || one_default(next.roots),
            Err(_) => true,
        },
    decreases settings.len(),
{
    if settings.len() > 0 {
        match changed(config, settings[0].key, settings[0].value, all, decoded, world) {
            Ok(next) => {
                lemma_changed_keeps_default(
                    config,
                    settings[0].key,
                    settings[0].value,
                    all,
                    decoded,
                    world,
                );
                lemma_all_keep_default(next, settings.drop_first(), all, decoded, world);
            },
            Err(_) => {},
        }
    }
}

// ---------------------------------------------------------------------------
// The base directory for data
// ---------------------------------------------------------------------------

/// Whether no key occurs twice.
pub open spec fn keys_differ(settings: Seq<EntryView>) -> bool {
    forall|i: int, j: int|
        0 <= i < j < settings.len() ==> (#[trigger] settings[i]).key != (#[trigger] settings[j]).key
}

/// A key that is there has a value.
pub(crate) proof fn lemma_entry(settings: Seq<EntryView>, key: Seq<char>)
    ensures
        match entry(settings, key) {
            Some(value) => exists|i: int|
                0 <= i < settings.len() && (#[trigger] settings[i]).key == key
                    && settings[i].value == value,
            None => forall|i: int| 0 <= i < settings.len() ==> (#[trigger] settings[i]).key != key,
        },
    decreases settings.len(),
{
    if settings.len() > 0 && settings[0].key != key {
        let rest = settings.drop_first();
        lemma_entry(rest, key);
        match entry(rest, key) {
            Some(value) => {
                let i = choose|i: int|
                    0 <= i < rest.len() && (#[trigger] rest[i]).key == key && rest[i].value == value;
                assert(settings[i + 1] == rest[i]);
            },
            None => {
                assert forall|i: int| 0 <= i < settings.len() implies (#[trigger] settings[i]).key
                    != key by {
                    if i > 0 {
                        assert(settings[i] == rest[i - 1]);
                    }
                }
            },
        }
    }
}

/// What one setting does to the directories for data.
proof fn lemma_changed_places(
    config: ConfigView,
    key: Seq<char>,
    value: JsonView,
    all: JsonView,
    decoded: DecodedView,
    world: SurroundingsView,
)
    requires
        changed(config, key, value, all, decoded, world) is Ok,
    ensures
        ({
            let next = changed(config, key, value, all, decoded, world)->Ok_0;
            &&& next.language_pack_root == if key == "language_pack_root"@ {
                value->Text_0
            } else if key == "data_root"@ && field(all, "language_pack_root"@) is None {
                joined_path(value->Text_0, "languages"@)
            } else {
                config.language_pack_root
            }
            &&& next.lancedb_path == if key == "lancedb"@ && field(value, "path"@) is Some {
                (field(value, "path"@)->0)->Text_0
            } else if key == "data_root"@ && !gives_store(all) {
                joined_path(value->Text_0, "lancedb"@)
            } else {
                config.lancedb_path
            }
            &&& key == "language_pack_root"@ || key == "data_root"@ ==> value is Text
            &&& key == "lancedb"@ && field(value, "path"@) is Some ==> field(
                value,
                "path"@,
            )->0 is Text
        }),
{
    reveal_strlit("language_pack_root");
    reveal_strlit("data_root");
    reveal_strlit("lancedb");
    reveal_strlit("roots");
    reveal_strlit("chunk_max_chars");
    reveal_strlit("chunk_max_tokens");
    reveal_strlit("chunk_overlap_tokens");
    reveal_strlit("watch_debounce_ms");
    reveal_strlit("languages");
    reveal_strlit("language_download");
    reveal_strlit("log_path");
    reveal_strlit("context");
    reveal_strlit("embedder");
    if key == "lancedb"@ {
        assert(key.len() == 7);
        assert(key[0] == 'l');
        assert(key != "context"@) by {
            assert("context"@[0] == 'c');
        }
    } else if key == "data_root"@ {
        assert(key.len() == 9);
        assert(key[0] == 'd');
        assert(key != "languages"@) by {
            assert("languages"@[0] == 'l');
        }
    } else if key == "language_pack_root"@ {
        assert(key.len() == 18);
    }
}

/// Where the directories for data lie once settings are made, whatever their
/// order: where they say, else in the base directory where there is one, else
/// where they lay before.
pub proof fn law_data_root(
    config: ConfigView,
    settings: Seq<EntryView>,
    decoded: DecodedView,
    world: SurroundingsView,
)
    requires
        keys_differ(settings),
        overridden(config, JsonView::Object(settings), decoded, world) is Ok,
    ensures
        ({
            let next = overridden(config, JsonView::Object(settings), decoded, world)->Ok_0;
            let base = entry(settings, "data_root"@);
            &&& next.language_pack_root == match entry(settings, "language_pack_root"@) {
                Some(value) => value->Text_0,
                None => match base {
                    Some(value) => joined_path(value->Text_0, "languages"@),
                    None => config.language_pack_root,
                },
            }
            &&& next.lancedb_path == if gives_store(JsonView::Object(settings)) {
                (field(entry(settings, "lancedb"@)->0, "path"@)->0)->Text_0
            } else {
                match base {
                    Some(value) => joined_path(value->Text_0, "lancedb"@),
                    None => config.lancedb_path,
                }
            }
        }),
{
    assert(settings.skip(0) =~= settings);
    lemma_places(config, settings, settings, decoded, world, 0);
}

/// Where the directories for data lie once the settings from position `from` on
/// are made.
proof fn lemma_places(
    config: ConfigView,
    rest: Seq<EntryView>,
    settings: Seq<EntryView>,
    decoded: DecodedView,
    world: SurroundingsView,
    from: int,
)
    requires
        keys_differ(settings),
        0 <= from <= settings.len(),
        rest == settings.skip(from),
        all_changed(config, rest, JsonView::Object(settings), decoded, world) is Ok,
    ensures
        ({
            let all = JsonView::Object(settings);
            let next = all_changed(config, rest, all, decoded, world)->Ok_0;
            &&& next.language_pack_root == match entry(rest, "language_pack_root"@) {
                Some(value) => value->Text_0,
                None => match entry(rest, "data_root"@) {
                    Some(value) => if entry(settings, "language_pack_root"@) is None {
                        joined_path(value->Text_0, "languages"@)
                    } else {
                        config.language_pack_root
                    },
                    None => config.language_pack_root,
                },
            }
            &&& next.lancedb_path == if entry(rest, "lancedb"@) is Some && field(
                entry(rest, "lancedb"@)->0,
                "path"@,
            ) is Some {
                (field(entry(rest, "lancedb"@)->0, "path"@)->0)->Text_0
            } else {
                match entry(rest, "data_root"@) {
                    Some(value) => if !gives_store(all) {
                        joined_path(value->Text_0, "lancedb"@)
                    } else {
                        config.lancedb_path
                    },
                    None => config.lancedb_path,
                }
            }
        }),
    decreases rest.len(),
{
    let all = JsonView::Object(settings);
    if rest.len() > 0 {
        let first = rest[0];
        let behind = rest.drop_first();
        assert(behind =~= settings.skip(from + 1));
        let next = changed(config, first.key, first.value, all, decoded, world)->Ok_0;
        lemma_changed_places(config, first.key, first.value, all, decoded, world);
        lemma_places(next, behind, settings, decoded, world, from + 1);
        lemma_entry(behind, "language_pack_root"@);
        lemma_entry(behind, "lancedb"@);
        lemma_entry(behind, "data_root"@);
        lemma_entry(settings, "language_pack_root"@);
        lemma_entry(settings, "lancedb"@);
        assert(settings[from] == first);
        assert forall|k: int| 0 <= k < behind.len() implies (#[trigger] behind[k]).key
            != first.key by {
            assert(settings[from + 1 + k] == behind[k]);
        }
        reveal_strlit("language_pack_root");
        reveal_strlit("data_root");
        reveal_strlit("lancedb");
        assert("language_pack_root"@.len() == 18);
        assert("data_root"@.len() == 9);
        assert("lancedb"@.len() == 7);
        if first.key == "lancedb"@ && entry(settings, "lancedb"@) is Some {
            lemma_entry_is(settings, from);
        }
    }
}

/// How large a chunk may be once settings are made, whatever their order: as
/// large as the limit in tokens says, else as that in characters says, else as
/// before.
pub proof fn law_chunk_limit(
    config: ConfigView,
    settings: Seq<EntryView>,
    decoded: DecodedView,
    world: SurroundingsView,
)
    requires
        keys_differ(settings),
        overridden(config, JsonView::Object(settings), decoded, world) is Ok,
    ensures
        overridden(config, JsonView::Object(settings), decoded, world)->Ok_0.chunk_max_tokens
            == match entry(settings, "chunk_max_tokens"@) {
            Some(value) => as_unsigned(Some(value))->0,
            None => match entry(settings, "chunk_max_chars"@) {
                Some(value) => tokens_within(as_unsigned(Some(value))->0),
                None => config.chunk_max_tokens,
            },
        },
{
    assert(settings.skip(0) =~= settings);
    lemma_limit(config, settings, settings, decoded, world, 0);
}

/// What one setting does to the limit for chunks.
proof fn lemma_changed_limit(
    config: ConfigView,
    key: Seq<char>,
    value: JsonView,
    all: JsonView,
    decoded: DecodedView,
    world: SurroundingsView,
)
    requires
        changed(config, key, value, all, decoded, world) is Ok,
    ensures
        changed(config, key, value, all, decoded, world)->Ok_0.chunk_max_tokens == if key
            == "chunk_max_tokens"@ {
            as_unsigned(Some(value))->0
        } else if key == "chunk_max_chars"@ && field(all, "chunk_max_tokens"@) is None {
            tokens_within(as_unsigned(Some(value))->0)
        } else {
            config.chunk_max_tokens
        },
{
    reveal_strlit("roots");
    reveal_strlit("chunk_max_chars");
    reveal_strlit("chunk_max_tokens");
    if key == "chunk_max_tokens"@ {
        assert(key.len() == 16);
    } else if key == "chunk_max_chars"@ {
        assert(key.len() == 15);
    }
}

/// How large a chunk may be once the settings from position `from` on are made.
proof fn lemma_limit(
    config: ConfigView,
    rest: Seq<EntryView>,
    settings: Seq<EntryView>,
    decoded: DecodedView,
    world: SurroundingsView,
    from: int,
)
    requires
        keys_differ(settings),
        0 <= from <= settings.len(),
        rest == settings.skip(from),
        all_changed(config, rest, JsonView::Object(settings), decoded, world) is Ok,
    ensures
        all_changed(config, rest, JsonView::Object(settings), decoded, world)->Ok_0.chunk_max_tokens
            == match entry(rest, "chunk_max_tokens"@) {
            Some(value) => as_unsigned(Some(value))->0,
            None => match entry(rest, "chunk_max_chars"@) {
                Some(value) => if entry(settings, "chunk_max_tokens"@) is None {
                    tokens_within(as_unsigned(Some(value))->0)
                } else {
                    config.chunk_max_tokens
                },
                None => config.chunk_max_tokens,
            },
        },
    decreases rest.len(),
{
    let all = JsonView::Object(settings);
    if rest.len() > 0 {
        let first = rest[0];
        let behind = rest.drop_first();
        assert(behind =~= settings.skip(from + 1));
        let next = changed(config, first.key, first.value, all, decoded, world)->Ok_0;
        lemma_changed_limit(config, first.key, first.value, all, decoded, world);
        lemma_limit(next, behind, settings, decoded, world, from + 1);
        lemma_entry(behind, "chunk_max_tokens"@);
        lemma_entry(behind, "chunk_max_chars"@);
        lemma_entry(settings, "chunk_max_tokens"@);
        assert(settings[from] == first);
        assert forall|k: int| 0 <= k < behind.len() implies (#[trigger] behind[k]).key
            != first.key by {
            assert(settings[from + 1 + k] == behind[k]);
        }
        reveal_strlit("chunk_max_tokens");
        reveal_strlit("chunk_max_chars");
        assert("chunk_max_tokens"@.len() == 16);
        assert("chunk_max_chars"@.len() == 15);
    }
}

/// Where no key occurs twice, an entry is found by its key.
proof fn lemma_entry_is(settings: Seq<EntryView>, at: int)
    requires
        keys_differ(settings),
        0 <= at < settings.len(),
    ensures
        entry(settings, settings[at].key) == Some(settings[at].value),
{
    lemma_entry(settings, settings[at].key);
    match entry(settings, settings[at].key) {
        Some(value) => {
            let i = choose|i: int|
                0 <= i < settings.len() && (#[trigger] settings[i]).key == settings[at].key
                    && settings[i].value == value;
            if i < at {
                assert(settings[i].key != settings[at].key);
            } else if at < i {
                assert(settings[at].key != settings[i].key);
            }
        },
        None => {
            assert(settings[at].key != settings[at].key);
        },
    }
}

// ---------------------------------------------------------------------------
// Policies
// ---------------------------------------------------------------------------

/// Whether a root is another one that was narrowed: it has the same path and the
/// same patterns of its own, lets nothing pass that the other did not, and is not
/// blocked if it is the default.
pub open spec fn narrower(root: CallRootView, from: CallRootView) -> bool {
    &&& root.path == from.path
    &&& root.path_canon == from.path_canon
    &&& root.default == from.default
    &&& root.allow == from.allow
    &&& forall|rest: Seq<char>| #[trigger] root_admits(root, rest) ==> root_admits(from, rest)
    &&& from.blocked ==> root.blocked
    &&& from.default && !from.blocked ==> !root.blocked
}

/// Whether each root is the one at its place that was narrowed.
pub open spec fn all_narrower(roots: Seq<CallRootView>, from: Seq<CallRootView>) -> bool {
    &&& roots.len() == from.len()
    &&& forall|i: int| 0 <= i < from.len() ==> narrower(roots[i], #[trigger] from[i])
}

/// A root is found among the roots.
proof fn lemma_named_root(roots: Seq<CallRootView>, path: Seq<char>)
    ensures
        0 <= named_root(roots, path) <= roots.len(),
    decreases roots.len(),
{
    if roots.len() > 0 {
        lemma_named_root(roots.drop_first(), path);
    }
}

/// What a policy says of a root narrows it.
proof fn lemma_narrowed(root: CallRootView, input: RootInputView)
    requires
        narrowed(root, input) is Ok,
    ensures
        narrower(narrowed(root, input)->Ok_0, root),
{
    let next = narrowed(root, input)->Ok_0;
    assert forall|rest: Seq<char>| #[trigger] root_admits(next, rest) implies root_admits(
        root,
        rest,
    ) by {
        assert forall|i: int|
            0 <= i < root.deny.len() && glob_matches(#[trigger] root.deny[i], rest) implies false by {
            assert(next.deny[i] == root.deny[i]);
        }
        assert forall|i: int|
            0 <= i < allow_lists(root).len() && (#[trigger] allow_lists(root)[i]).len()
                > 0 implies matches_any(allow_lists(root)[i], rest) by {
            assert(allow_lists(next)[i] == allow_lists(root)[i]);
        }
    }
}

/// A policy only narrows: each root keeps its path and lets nothing pass that it
/// did not let pass before, and the default root is not blocked.
pub proof fn law_policy_narrows(
    roots: Seq<CallRootView>,
    inputs: Seq<RootInputView>,
    cwd: Seq<char>,
)
    ensures
        match policy_roots(roots, inputs, cwd) {
            Ok(left) => all_narrower(left, roots),
            Err(_) => true,
        },
    decreases inputs.len(),
{
    if inputs.len() > 0 {
        match policy_root(roots, inputs[0], cwd) {
            Ok(next) => {
                let path = crate::paths::root_path(inputs[0].path, cwd);
                let at = named_root(roots, path);
                lemma_named_root(roots, path);
                lemma_narrowed(roots[at], inputs[0]);
                law_policy_narrows(next, inputs.drop_first(), cwd);
                match policy_roots(next, inputs.drop_first(), cwd) {
                    Ok(left) => {
                        assert forall|i: int| 0 <= i < roots.len() implies narrower(
                            left[i],
                            #[trigger] roots[i],
                        ) by {
                            assert(narrower(left[i], next[i]));
                            assert(narrower(next[i], roots[i]));
                        }
                    },
                    Err(_) => {},
                }
            },
            Err(_) => {},
        }
    }
}

/// What a call sees of the configured roots: each at its place, not blocked.
pub(crate) proof fn lemma_call_roots(roots: Seq<RootView>)
    requires
        call_roots(roots) is Ok,
    ensures
        ({
            let out = call_roots(roots)->Ok_0;
            &&& out.len() == roots.len()
            &&& forall|i: int|
                0 <= i < roots.len() ==> call_root(#[trigger] roots[i]) == Ok::<
                    CallRootView,
                    Seq<char>,
                >(out[i])
        }),
    decreases roots.len(),
{
    if roots.len() > 0 {
        let before = roots.drop_last();
        lemma_call_roots(before);
        let out = call_roots(roots)->Ok_0;
        let init = call_roots(before)->Ok_0;
        assert forall|i: int| 0 <= i < roots.len() implies call_root(#[trigger] roots[i]) == Ok::<
            CallRootView,
            Seq<char>,
        >(out[i]) by {
            if i < before.len() {
                assert(before[i] == roots[i]);
                assert(out[i] == init[i]);
            }
        }
    }
}

/// The roots that are not blocked are those among all of them.
proof fn lemma_open_roots(roots: Seq<CallRootView>, root: CallRootView)
    ensures
        open_roots(roots).contains(root) <==> roots.contains(root) && !root.blocked,
    decreases roots.len(),
{
    if roots.len() > 0 {
        let before = roots.drop_last();
        let last = roots.last();
        let out = open_roots(roots);
        let init = open_roots(before);
        lemma_open_roots(before, root);
        assert(roots[roots.len() - 1] == last);
        if before.contains(root) {
            let k = choose|k: int| 0 <= k < before.len() && before[k] == root;
            assert(roots[k] == root);
        }
        if roots.contains(root) && root != last {
            let k = choose|k: int| 0 <= k < roots.len() && roots[k] == root;
            assert(before[k] == root);
        }
        if init.contains(root) {
            let k = choose|k: int| 0 <= k < init.len() && init[k] == root;
            assert(out[k] == root);
        }
        if out.contains(root) {
            let k = choose|k: int| 0 <= k < out.len() && out[k] == root;
            if k < init.len() {
                assert(init[k] == root);
            }
        }
        if !last.blocked {
            assert(out[init.len() as int] == last);
        }
    }
}

/// Where no root is blocked, none is left out.
proof fn lemma_all_open(roots: Seq<CallRootView>)
    requires
        forall|i: int| 0 <= i < roots.len() ==> !(#[trigger] roots[i]).blocked,
    ensures
        open_roots(roots) == roots,
    decreases roots.len(),
{
    if roots.len() > 0 {
        assert forall|i: int| 0 <= i < roots.drop_last().len() implies !(
        #[trigger] roots.drop_last()[i]).blocked by {
            assert(!roots[i].blocked);
        }
        lemma_all_open(roots.drop_last());
        assert(!roots[roots.len() - 1].blocked);
        assert(roots.drop_last().push(roots.last()) =~= roots);
    }
}

/// A policy only restricts: what a call may search are the roots that it could
/// search without one, in the same order and less the blocked ones, each narrowed;
/// the default root is not blocked.
pub proof fn law_policy_restricts(
    config: ConfigView,
    meta: JsonView,
    inputs: Result<Seq<RootInputView>, Seq<char>>,
    cwd: Seq<char>,
)
    requires
        call_config(config, meta, inputs, cwd) is Ok,
    ensures
        exists|left: Seq<CallRootView>|
            all_narrower(left, call_roots(config.roots)->Ok_0) && call_config(
                config,
                meta,
                inputs,
                cwd,
            )->Ok_0.roots == #[trigger] open_roots(left),
{
    let left = lemma_call_left(config, meta, inputs, cwd);
    assert(all_narrower(left, call_roots(config.roots)->Ok_0));
    assert(call_config(config, meta, inputs, cwd)->Ok_0.roots == open_roots(left));
}

/// What a call may search is made of the configured roots, each narrowed.
proof fn lemma_call_left(
    config: ConfigView,
    meta: JsonView,
    inputs: Result<Seq<RootInputView>, Seq<char>>,
    cwd: Seq<char>,
) -> (left: Seq<CallRootView>)
    requires
        call_config(config, meta, inputs, cwd) is Ok,
    ensures
        all_narrower(left, call_roots(config.roots)->Ok_0),
        call_config(config, meta, inputs, cwd)->Ok_0.roots == open_roots(left),
        forall|root: CallRootView| #[trigger]
            call_config(config, meta, inputs, cwd)->Ok_0.roots.contains(root) <==> left.contains(root)
                && !root.blocked,
{
    let seen = call_roots(config.roots)->Ok_0;
    lemma_call_roots(config.roots);
    match field(meta, "policy"@) {
        None => {
            assert forall|root: CallRootView| seen.contains(root) implies !root.blocked by {
                let k = choose|k: int| 0 <= k < seen.len() && seen[k] == root;
                assert(call_root(config.roots[k]) == Ok::<CallRootView, Seq<char>>(seen[k]));
            }
            assert forall|i: int| 0 <= i < seen.len() implies !(#[trigger] seen[i]).blocked by {
                assert(seen.contains(seen[i]));
            }
            lemma_all_open(seen);
            seen
        },
        Some(policy) => {
            law_policy_narrows(seen, policy_of(policy, inputs)->Ok_0.roots, cwd);
            let left = under_policy(seen, policy, inputs, cwd)->Ok_0.0;
            assert forall|root: CallRootView| #[trigger]
                call_config(config, meta, inputs, cwd)->Ok_0.roots.contains(
                    root,
                ) <==> left.contains(root) && !root.blocked by {
                lemma_open_roots(left, root);
            }
            left
        },
    }
}

/// Whether a root of a call is a configured one, or a narrower one.
pub open spec fn stems_from(root: CallRootView, from: RootView) -> bool {
    &&& root.path == from.path
    &&& root.allow == from.allow
    &&& forall|rest: Seq<char>| #[trigger] root_admits(root, rest) ==> config_admits(from, rest)
}

/// Whether a configured root lets a path below it pass.
pub open spec fn config_admits(root: RootView, rest: Seq<char>) -> bool {
    admits(Seq::empty().push(root.allow), root.deny, rest)
}

/// A call without a policy sees a configured root with its patterns.
proof fn lemma_call_root_admits(root: RootView, seen: CallRootView)
    requires
        call_root(root) == Ok::<CallRootView, Seq<char>>(seen),
    ensures
        forall|rest: Seq<char>| #[trigger] root_admits(seen, rest) == config_admits(root, rest),
{
    assert(allow_lists(seen) =~= Seq::empty().push(root.allow));
}

/// Whatever its policy, a call searches nothing but configured roots, and nothing
/// in them that their patterns do not let pass.
pub proof fn law_call_stays_in_roots(
    config: ConfigView,
    meta: JsonView,
    inputs: Result<Seq<RootInputView>, Seq<char>>,
    cwd: Seq<char>,
    i: int,
)
    requires
        call_config(config, meta, inputs, cwd) is Ok,
        0 <= i < call_config(config, meta, inputs, cwd)->Ok_0.roots.len(),
    ensures
        exists|j: int|
            0 <= j < config.roots.len() && stems_from(
                call_config(config, meta, inputs, cwd)->Ok_0.roots[i],
                #[trigger] config.roots[j],
            ),
{
    let roots = call_config(config, meta, inputs, cwd)->Ok_0.roots;
    let seen = call_roots(config.roots)->Ok_0;
    let left = lemma_call_left(config, meta, inputs, cwd);
    lemma_call_roots(config.roots);
    assert(roots.contains(roots[i]));
    let k = choose|k: int| 0 <= k < left.len() && left[k] == roots[i];
    assert(narrower(left[k], seen[k]));
    assert(call_root(config.roots[k]) == Ok::<CallRootView, Seq<char>>(seen[k]));
    lemma_call_root_admits(config.roots[k], seen[k]);
    assert(stems_from(roots[i], config.roots[k]));
}

/// Whatever its policy, a call may search the default root.
pub proof fn law_default_root_stays(
    config: ConfigView,
    meta: JsonView,
    inputs: Result<Seq<RootInputView>, Seq<char>>,
    cwd: Seq<char>,
    j: int,
)
    requires
        call_config(config, meta, inputs, cwd) is Ok,
        0 <= j < config.roots.len(),
        config.roots[j].default,
    ensures
        exists|i: int|
            0 <= i < call_config(config, meta, inputs, cwd)->Ok_0.roots.len() && stems_from(
                #[trigger] call_config(config, meta, inputs, cwd)->Ok_0.roots[i],
                config.roots[j],
            ),
{
    let roots = call_config(config, meta, inputs, cwd)->Ok_0.roots;
    let seen = call_roots(config.roots)->Ok_0;
    let left = lemma_call_left(config, meta, inputs, cwd);
    lemma_call_roots(config.roots);
    assert(call_root(config.roots[j]) == Ok::<CallRootView, Seq<char>>(seen[j]));
    assert(narrower(left[j], seen[j]));
    assert(left.contains(left[j]));
    assert(roots.contains(left[j]));
    let i = choose|i: int| 0 <= i < roots.len() && roots[i] == left[j];
    lemma_call_root_admits(config.roots[j], seen[j]);
    assert(stems_from(roots[i], config.roots[j]));
}

} // verus!
