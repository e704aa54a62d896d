//! What a policy does to a call, whatever the call and the policy.
use crate::answer_laws::{hit, law_call_may_find, lets_pass, lies_in, root_lets_pass};
use crate::config::{list_of, texts_in, ConfigView, RootInputView, RootView};
use crate::globs::{glob_matches, glob_set, matches_any};
use crate::json::{as_unsigned, entry, field, EntryView, JsonView};
use crate::paths::{below, components, root_path, under};
use crate::policy::{
    allow_lists, call_config, call_root, call_roots, named_root, narrowed, open_roots,
    policy_entries, policy_entry, policy_of, policy_root, policy_roots, root_admits, under_policy,
    CallRootView, PolicyView,
};
use crate::policy_laws::{keys_differ, lemma_call_roots, lemma_entry};
use crate::search::call_filter;
use crate::store::{passes, ResultView};
use crate::text::blank;
use vstd::prelude::*;

verus! {

// ---------------------------------------------------------------------------
// One root
// ---------------------------------------------------------------------------

/// What a root lets pass, pattern by pattern.
pub proof fn law_root_admits(root: CallRootView, rest: Seq<char>)
    ensures
        root_admits(root, rest) <==> root_lets_pass(root, rest),
{
    let lists = allow_lists(root);
    assert(hit(root.deny, rest) == matches_any(root.deny, rest));
    assert forall|list: Seq<Seq<char>>| #[trigger] hit(list, rest) == matches_any(list, rest) by {}
    assert(lists.len() == 1 + root.policy_allow.len());
    assert(lists[0] == root.allow);
    if root_admits(root, rest) {
        assert(lets_pass(lists[0], rest));
        assert forall|i: int| 0 <= i < root.policy_allow.len() implies lets_pass(
            #[trigger] root.policy_allow[i],
            rest,
        ) by {
            assert(lists[i + 1] == root.policy_allow[i]);
            assert(hit(lists[i + 1], rest) == matches_any(lists[i + 1], rest));
        }
    }
    if root_lets_pass(root, rest) {
        assert forall|i: int|
            0 <= i < lists.len() && (#[trigger] lists[i]).len() > 0 implies matches_any(
            lists[i],
            rest,
        ) by {
            assert(hit(lists[i], rest) == matches_any(lists[i], rest));
            if i > 0 {
                assert(lists[i] == root.policy_allow[i - 1]);
                assert(lets_pass(root.policy_allow[i - 1], rest));
            }
        }
    }
}

/// What a root lets pass once it is narrowed: what it let pass before, where no
/// pattern that the policy denies matches and one that it allows does, if it names
/// any.
pub proof fn law_narrowed_root_admits(root: CallRootView, input: RootInputView, rest: Seq<char>)
    requires
        narrowed(root, input) is Ok,
    ensures
        root_admits(narrowed(root, input)->Ok_0, rest) <==> {
            &&& root_admits(root, rest)
            &&& forall|i: int|
                0 <= i < input.deny.len() ==> !glob_matches(#[trigger] input.deny[i], rest)
            &&& input.allow.len() == 0 || exists|i: int|
                0 <= i < input.allow.len() && glob_matches(#[trigger] input.allow[i], rest)
        },
{
    let next = narrowed(root, input)->Ok_0;
    law_root_admits(root, rest);
    law_root_admits(next, rest);
    let denied = hit(input.deny, rest);
    assert(hit(next.deny, rest) == (hit(root.deny, rest) || denied)) by {
        if hit(root.deny, rest) {
            let i = choose|i: int|
                0 <= i < root.deny.len() && glob_matches(#[trigger] root.deny[i], rest);
            assert(next.deny[i] == root.deny[i]);
        }
        if denied {
            let i = choose|i: int|
                0 <= i < input.deny.len() && glob_matches(#[trigger] input.deny[i], rest);
            assert(next.deny[root.deny.len() + i] == input.deny[i]);
        }
        if hit(next.deny, rest) {
            let i = choose|i: int|
                0 <= i < next.deny.len() && glob_matches(#[trigger] next.deny[i], rest);
            if i < root.deny.len() {
                assert(next.deny[i] == root.deny[i]);
            } else {
                assert(next.deny[i] == input.deny[i - root.deny.len()]);
            }
        }
    }
    if root_lets_pass(next, rest) {
        assert forall|i: int| 0 <= i < root.policy_allow.len() implies lets_pass(
            #[trigger] root.policy_allow[i],
            rest,
        ) by {
            assert(next.policy_allow[i] == root.policy_allow[i]);
        }
        if input.allow.len() > 0 {
            assert(next.policy_allow[root.policy_allow.len() as int] == input.allow);
            assert(lets_pass(input.allow, rest));
        }
    }
    if root_lets_pass(root, rest) && lets_pass(input.allow, rest) && !denied {
        assert forall|i: int| 0 <= i < next.policy_allow.len() implies lets_pass(
            #[trigger] next.policy_allow[i],
            rest,
        ) by {
            if i < root.policy_allow.len() {
                assert(next.policy_allow[i] == root.policy_allow[i]);
            } else {
                assert(next.policy_allow[i] == input.allow);
            }
        }
        assert(root_lets_pass(next, rest));
    }
}

/// Narrowing a root keeps its place and its own patterns. It is blocked where it
/// was or where the policy blocks it, which it cannot do to the default root. Else
/// only patterns that cannot be read stand in the way.
pub proof fn law_narrowed_root(root: CallRootView, input: RootInputView)
    ensures
        input.blocked == Some(true) && root.default ==> narrowed(root, input) is Err,
        !(input.blocked == Some(true) && root.default) && glob_set(root.deny + input.deny) is Ok
            && glob_set(input.allow) is Ok ==> narrowed(root, input) is Ok,
        match narrowed(root, input) {
            Ok(next) => {
                &&& next.path == root.path
                &&& next.path_canon == root.path_canon
                &&& next.default == root.default
                &&& next.allow == root.allow
                &&& next.blocked <==> root.blocked || input.blocked == Some(true)
            },
            Err(_) => true,
        },
{
}

// ---------------------------------------------------------------------------
// The roots of a policy
// ---------------------------------------------------------------------------

/// Whether a path has the names of one of the paths of a root.
pub open spec fn is_path_of(root: CallRootView, path: Seq<char>) -> bool {
    components(path) == components(root.path_canon) || components(path) == components(root.path)
}

/// Whether a policy speaks of the root at a position: it is the first with the path
/// that the policy names, seen from the working directory.
pub open spec fn speaks_of(
    roots: Seq<CallRootView>,
    input: RootInputView,
    cwd: Seq<char>,
    at: int,
) -> bool {
    let path = root_path(input.path, cwd);
    &&& 0 <= at < roots.len()
    &&& is_path_of(roots[at], path)
    &&& forall|k: int| 0 <= k < at ==> !is_path_of(#[trigger] roots[k], path)
}

/// The first root with a path is the one that the path names.
proof fn lemma_first_named(roots: Seq<CallRootView>, path: Seq<char>)
    ensures
        ({
            let at = named_root(roots, path);
            &&& 0 <= at <= roots.len()
            &&& at < roots.len() ==> is_path_of(roots[at], path)
            &&& forall|k: int| 0 <= k < at ==> !is_path_of(#[trigger] roots[k], path)
        }),
    decreases roots.len(),
{
    if roots.len() > 0 && !is_path_of(roots[0], path) {
        let rest = roots.drop_first();
        lemma_first_named(rest, path);
        let at = named_root(rest, path);
        assert forall|k: int| 0 <= k < at + 1 implies !is_path_of(#[trigger] roots[k], path) by {
            if k > 0 {
                assert(roots[k] == rest[k - 1]);
            }
        }
        if at < rest.len() {
            assert(roots[at + 1] == rest[at]);
        }
    }
}

/// What a policy says of a root narrows the root that it speaks of and no other. It
/// must speak of one, and cannot make it the default.
pub proof fn law_policy_speaks_of_one(
    roots: Seq<CallRootView>,
    input: RootInputView,
    cwd: Seq<char>,
)
    ensures
        policy_root(roots, input, cwd) is Ok <==> input.default is None && exists|at: int| #[trigger]
            speaks_of(roots, input, cwd, at) && narrowed(roots[at], input) is Ok,
        match policy_root(roots, input, cwd) {
            Ok(next) => {
                &&& next.len() == roots.len()
                &&& forall|i: int|
                    0 <= i < roots.len() ==> #[trigger] next[i] == if speaks_of(
                        roots,
                        input,
                        cwd,
                        i,
                    ) {
                        narrowed(roots[i], input)->Ok_0
                    } else {
                        roots[i]
                    }
            },
            Err(_) => true,
        },
{
    let path = root_path(input.path, cwd);
    let at = named_root(roots, path);
    lemma_first_named(roots, path);
    assert forall|i: int| #[trigger] speaks_of(roots, input, cwd, i) implies i == at by {
        if i < at {
            assert(!is_path_of(roots[i], path));
        } else if at < i {
            assert(!is_path_of(roots[at], path));
        }
    }
    if at < roots.len() {
        assert(speaks_of(roots, input, cwd, at));
    }
}

/// What roots let pass and which are blocked once a policy has spoken of them: each
/// lets pass what it did where nothing that the policy says of it stands against
/// it, and is blocked where it was or where the policy says so.
pub proof fn law_policy_on_roots(
    roots: Seq<CallRootView>,
    inputs: Seq<RootInputView>,
    cwd: Seq<char>,
    i: int,
    rest: Seq<char>,
)
    requires
        policy_roots(roots, inputs, cwd) is Ok,
        0 <= i < roots.len(),
    ensures
        ({
            let left = policy_roots(roots, inputs, cwd)->Ok_0;
            &&& left.len() == roots.len()
            &&& left[i].path == roots[i].path
            &&& root_admits(left[i], rest) <==> root_admits(roots[i], rest) && forall|k: int|
                0 <= k < inputs.len() && speaks_of(roots, #[trigger] inputs[k], cwd, i) ==> !hit(
                    inputs[k].deny,
                    rest,
                ) && lets_pass(inputs[k].allow, rest)
            &&& left[i].blocked <==> roots[i].blocked || exists|k: int|
                0 <= k < inputs.len() && speaks_of(roots, #[trigger] inputs[k], cwd, i)
                    && inputs[k].blocked == Some(true)
        }),
    decreases inputs.len(),
{
    if inputs.len() > 0 {
        let next = policy_root(roots, inputs[0], cwd)->Ok_0;
        let behind = inputs.drop_first();
        law_policy_speaks_of_one(roots, inputs[0], cwd);
        law_policy_on_roots(next, behind, cwd, i, rest);
        assert forall|j: int| 0 <= j < roots.len() implies (#[trigger] next[j]).path
            == roots[j].path && next[j].path_canon == roots[j].path_canon by {
            law_narrowed_root(roots[j], inputs[0]);
        }
        assert forall|input: RootInputView| #[trigger]
            speaks_of(next, input, cwd, i) == speaks_of(roots, input, cwd, i) by {
            let path = root_path(input.path, cwd);
            assert(is_path_of(next[i], path) == is_path_of(roots[i], path));
            if speaks_of(next, input, cwd, i) {
                assert forall|k: int| 0 <= k < i implies !is_path_of(#[trigger] roots[k], path) by {
                    assert(!is_path_of(next[k], path));
                }
            }
            if speaks_of(roots, input, cwd, i) {
                assert forall|k: int| 0 <= k < i implies !is_path_of(#[trigger] next[k], path) by {
                    assert(!is_path_of(roots[k], path));
                }
            }
        }
        let spoken = speaks_of(roots, inputs[0], cwd, i);
        if spoken {
            law_narrowed_root(roots[i], inputs[0]);
            law_narrowed_root_admits(roots[i], inputs[0], rest);
            assert(next[i] == narrowed(roots[i], inputs[0])->Ok_0);
        } else {
            assert(next[i] == roots[i]);
        }
        let first_passes = spoken ==> !hit(inputs[0].deny, rest) && lets_pass(
            inputs[0].allow,
            rest,
        );
        assert(root_admits(next[i], rest) <==> root_admits(roots[i], rest) && first_passes);
        let left = policy_roots(roots, inputs, cwd)->Ok_0;
        if root_admits(left[i], rest) {
            assert forall|k: int|
                0 <= k < inputs.len() && speaks_of(
                    roots,
                    #[trigger] inputs[k],
                    cwd,
                    i,
                ) implies !hit(inputs[k].deny, rest) && lets_pass(inputs[k].allow, rest) by {
                if k > 0 {
                    assert(behind[k - 1] == inputs[k]);
                    assert(speaks_of(next, behind[k - 1], cwd, i));
                }
            }
        }
        if forall|k: int|
            0 <= k < inputs.len() && speaks_of(roots, #[trigger] inputs[k], cwd, i) ==> !hit(
                inputs[k].deny,
                rest,
            ) && lets_pass(inputs[k].allow, rest) {
            assert(first_passes) by {
                assert(spoken ==> speaks_of(roots, inputs[0], cwd, i));
            }
            assert forall|k: int|
                0 <= k < behind.len() && speaks_of(next, #[trigger] behind[k], cwd, i) implies !hit(
                behind[k].deny,
                rest,
            ) && lets_pass(behind[k].allow, rest) by {
                assert(behind[k] == inputs[k + 1]);
                assert(speaks_of(roots, inputs[k + 1], cwd, i));
            }
        }
        if left[i].blocked && !roots[i].blocked {
            if next[i].blocked {
                assert(speaks_of(roots, inputs[0], cwd, i) && inputs[0].blocked == Some(true));
            } else {
                let k = choose|k: int|
                    0 <= k < behind.len() && speaks_of(next, #[trigger] behind[k], cwd, i)
                        && behind[k].blocked == Some(true);
                assert(behind[k] == inputs[k + 1]);
                assert(speaks_of(roots, inputs[k + 1], cwd, i));
            }
        }
        if exists|k: int|
            0 <= k < inputs.len() && speaks_of(roots, #[trigger] inputs[k], cwd, i)
                && inputs[k].blocked == Some(true) {
            let k = choose|k: int|
                0 <= k < inputs.len() && speaks_of(roots, #[trigger] inputs[k], cwd, i)
                    && inputs[k].blocked == Some(true);
            if k > 0 {
                assert(behind[k - 1] == inputs[k]);
                assert(speaks_of(next, behind[k - 1], cwd, i));
            }
        }
    }
}

/// The roots that are left to a call are those that are not blocked, in their
/// order.
pub proof fn law_open_roots(roots: Seq<CallRootView>)
    ensures
        open_roots(roots) == roots.filter(|root: CallRootView| !root.blocked),
    decreases roots.len(),
{
    reveal(Seq::filter);
    if roots.len() > 0 {
        law_open_roots(roots.drop_last());
    } else {
        assert(open_roots(roots) =~= roots.filter(|root: CallRootView| !root.blocked));
    }
}

/// What a call may search: without a policy each configured root, as it is; with
/// one, of what it leaves of them the roots that are not blocked, and its settings.
pub proof fn law_call_roots(
    config: ConfigView,
    meta: JsonView,
    inputs: Result<Seq<RootInputView>, Seq<char>>,
    cwd: Seq<char>,
)
    requires
        call_config(config, meta, inputs, cwd) is Ok,
    ensures
        ({
            let call = call_config(config, meta, inputs, cwd)->Ok_0;
            let seen = call_roots(config.roots)->Ok_0;
            &&& seen.len() == config.roots.len()
            &&& forall|i: int|
                0 <= i < seen.len() ==> {
                    let root = #[trigger] seen[i];
                    &&& root.path == config.roots[i].path
                    &&& root.path_canon == config.roots[i].path_canon
                    &&& root.default == config.roots[i].default
                    &&& root.deny == config.roots[i].deny
                    &&& root.allow == config.roots[i].allow
                    &&& root.policy_allow.len() == 0
                    &&& !root.blocked
                }
            &&& match field(meta, "policy"@) {
                None => {
                    &&& call.roots == seen
                    &&& call.settings.allow_globs.len() == 0
                    &&& call.settings.deny_globs.len() == 0
                    &&& call.settings.allow_languages.len() == 0
                    &&& call.settings.deny_languages.len() == 0
                    &&& call.settings.max_results is None
                    &&& call.settings.max_bytes is None
                },
                Some(policy) => {
                    &&& policy_of(policy, inputs) is Ok
                    &&& policy_roots(seen, policy_of(policy, inputs)->Ok_0.roots, cwd) is Ok
                    &&& call.roots == policy_roots(
                        seen,
                        policy_of(policy, inputs)->Ok_0.roots,
                        cwd,
                    )->Ok_0.filter(|root: CallRootView| !root.blocked)
                    &&& call.settings == policy_of(policy, inputs)->Ok_0.settings
                },
            }
        }),
{
    let seen = call_roots(config.roots)->Ok_0;
    lemma_call_roots(config.roots);
    assert forall|i: int| 0 <= i < seen.len() implies ({
        let root = #[trigger] seen[i];
        &&& root.path == config.roots[i].path
        &&& root.path_canon == config.roots[i].path_canon
        &&& root.default == config.roots[i].default
        &&& root.deny == config.roots[i].deny
        &&& root.allow == config.roots[i].allow
        &&& root.policy_allow.len() == 0
        &&& !root.blocked
    }) by {
        assert(call_root(config.roots[i]) == Ok::<CallRootView, Seq<char>>(seen[i]));
    }
    match field(meta, "policy"@) {
        None => {},
        Some(policy) => {
            assert(under_policy(seen, policy, inputs, cwd) is Ok);
            law_open_roots(policy_roots(seen, policy_of(policy, inputs)->Ok_0.roots, cwd)->Ok_0);
        },
    }
}

// ---------------------------------------------------------------------------
// The settings of a policy
// ---------------------------------------------------------------------------

/// What a list of texts is read as: its texts in their order, less the blank ones,
/// or the one text that stands for it. It cannot be read where it is neither, or
/// holds something else.
pub proof fn law_list_is_read(value: JsonView, name: Seq<char>)
    ensures
        list_of(value, name) is Ok <==> value is Text || (value is List && forall|i: int|
            0 <= i < value->List_0.len() ==> (#[trigger] value->List_0[i]) is Text),
        match list_of(value, name) {
            Ok(list) => if value is Text {
                if blank(value->Text_0) {
                    list.len() == 0
                } else {
                    list.len() == 1 && list[0] == value->Text_0
                }
            } else {
                list == Seq::new(
                    value->List_0.len(),
                    |i: int| value->List_0[i]->Text_0,
                ).filter(|text: Seq<char>| !blank(text))
            },
            Err(_) => true,
        },
{
    match value {
        JsonView::List(items) => {
            lemma_texts_read(items);
        },
        _ => {},
    }
}

/// What the texts of a list are read as.
proof fn lemma_texts_read(items: Seq<JsonView>)
    ensures
        texts_in(items) is Some <==> forall|i: int|
            0 <= i < items.len() ==> (#[trigger] items[i]) is Text,
        texts_in(items) is Some ==> texts_in(items)->0 == Seq::new(
            items.len(),
            |i: int| items[i]->Text_0,
        ).filter(|text: Seq<char>| !blank(text)),
    decreases items.len(),
{
    reveal(Seq::filter);
    let all = Seq::new(items.len(), |i: int| items[i]->Text_0);
    let kept = |text: Seq<char>| !blank(text);
    if items.len() == 0 {
        assert(all.filter(kept) =~= Seq::<Seq<char>>::empty());
    } else {
        let before = items.drop_last();
        lemma_texts_read(before);
        let init = Seq::new(before.len(), |i: int| before[i]->Text_0);
        assert(all.drop_last() =~= init);
        assert(all.last() == items.last()->Text_0);
        assert(items.last() == items[items.len() - 1]);
        if forall|i: int| 0 <= i < before.len() ==> (#[trigger] before[i]) is Text {
            assert forall|i: int|
                0 <= i < items.len() && items[items.len() - 1] is Text implies (
            #[trigger] items[i]) is Text by {
                if i < before.len() {
                    assert(before[i] == items[i]);
                }
            }
        } else {
            let i = choose|i: int| 0 <= i < before.len() && !((#[trigger] before[i]) is Text);
            assert(items[i] == before[i]);
        }
    }
}

/// Whether a policy may have a key.
pub open spec fn known_key(key: Seq<char>) -> bool {
    ||| key == "roots"@
    ||| key == "allow"@
    ||| key == "deny"@
    ||| key == "languages"@
    ||| key == "deny_languages"@
    ||| key == "max_results"@
    ||| key == "max_bytes"@
}

/// What a list of patterns or languages is, where a policy may say so.
pub open spec fn said_list(
    entries: Seq<EntryView>,
    key: Seq<char>,
    before: Seq<Seq<char>>,
) -> Seq<Seq<char>> {
    match entry(entries, key) {
        Some(value) => list_of(value, key)->Ok_0,
        None => before,
    }
}

/// What a limit is, where a policy may say so.
pub open spec fn said_limit(
    entries: Seq<EntryView>,
    key: Seq<char>,
    before: Option<int>,
) -> Option<int> {
    match entry(entries, key) {
        Some(value) => as_unsigned(Some(value)),
        None => before,
    }
}

/// What a policy says, whatever the order of its entries: each list and each limit
/// is what the entry with its key says, and there is none without an entry. Keys
/// that are not known are refused.
pub proof fn law_policy_says(entries: Seq<EntryView>, roots: Result<Seq<RootInputView>, Seq<char>>)
    requires
        keys_differ(entries),
        policy_of(JsonView::Object(entries), roots) is Ok,
    ensures
        ({
            let policy = policy_of(JsonView::Object(entries), roots)->Ok_0;
            let none = Seq::<Seq<char>>::empty();
            &&& policy.settings.allow_globs == said_list(entries, "allow"@, none)
            &&& policy.settings.deny_globs == said_list(entries, "deny"@, none)
            &&& policy.settings.allow_languages == said_list(entries, "languages"@, none)
            &&& policy.settings.deny_languages == said_list(entries, "deny_languages"@, none)
            &&& policy.settings.max_results == said_limit(entries, "max_results"@, None)
            &&& policy.settings.max_bytes == said_limit(entries, "max_bytes"@, None)
            &&& policy.roots == if entry(entries, "roots"@) is Some {
                roots->Ok_0
            } else {
                Seq::empty()
            }
            &&& forall|i: int| 0 <= i < entries.len() ==> known_key((#[trigger] entries[i]).key)
        }),
{
    let start = PolicyView { roots: Seq::empty(), settings: crate::policy::no_settings() };
    lemma_policy_says(start, entries, roots);
}

/// The keys of a policy differ.
proof fn lemma_keys()
    ensures
        "roots"@.len() == 5,
        "allow"@.len() == 5,
        "deny"@.len() == 4,
        "languages"@.len() == 9,
        "deny_languages"@.len() == 14,
        "max_results"@.len() == 11,
        "max_bytes"@.len() == 9,
        "roots"@ != "allow"@,
        "languages"@ != "max_bytes"@,
{
    reveal_strlit("roots");
    reveal_strlit("allow");
    reveal_strlit("deny");
    reveal_strlit("languages");
    reveal_strlit("deny_languages");
    reveal_strlit("max_results");
    reveal_strlit("max_bytes");
    assert("roots"@[0] != "allow"@[0]);
    assert("languages"@[0] != "max_bytes"@[0]);
}

/// What a policy says after more of its entries.
proof fn lemma_policy_says(
    policy: PolicyView,
    entries: Seq<EntryView>,
    roots: Result<Seq<RootInputView>, Seq<char>>,
)
    requires
        keys_differ(entries),
        policy_entries(policy, entries, roots) is Ok,
    ensures
        ({
            let next = policy_entries(policy, entries, roots)->Ok_0;
            let old_settings = policy.settings;
            &&& next.settings.allow_globs == said_list(entries, "allow"@, old_settings.allow_globs)
            &&& next.settings.deny_globs == said_list(entries, "deny"@, old_settings.deny_globs)
            &&& next.settings.allow_languages == said_list(
                entries,
                "languages"@,
                old_settings.allow_languages,
            )
            &&& next.settings.deny_languages == said_list(
                entries,
                "deny_languages"@,
                old_settings.deny_languages,
            )
            &&& next.settings.max_results == said_limit(
                entries,
                "max_results"@,
                old_settings.max_results,
            )
            &&& next.settings.max_bytes == said_limit(entries, "max_bytes"@, old_settings.max_bytes)
            &&& next.roots == if entry(entries, "roots"@) is Some {
                roots->Ok_0
            } else {
                policy.roots
            }
            &&& forall|i: int| 0 <= i < entries.len() ==> known_key((#[trigger] entries[i]).key)
        }),
    decreases entries.len(),
{
    lemma_keys();
    if entries.len() > 0 {
        let first = entries[0];
        let behind = entries.drop_first();
        let next = policy_entry(policy, first.key, first.value, roots)->Ok_0;
        assert(keys_differ(behind)) by {
            assert forall|i: int, j: int| 0 <= i < j < behind.len() implies (#[trigger] behind[i]).key
                != (#[trigger] behind[j]).key by {
                assert(entries[i + 1].key != entries[j + 1].key);
            }
        }
        lemma_policy_says(next, behind, roots);
        assert(entry(behind, first.key) is None) by {
            lemma_entry(behind, first.key);
            if entry(behind, first.key) is Some {
                let i = choose|i: int|
                    0 <= i < behind.len() && (#[trigger] behind[i]).key == first.key
                        && behind[i].value == entry(behind, first.key)->0;
                assert(entries[0].key != entries[i + 1].key);
            }
        }
        assert forall|i: int| 0 <= i < entries.len() implies known_key((#[trigger] entries[i]).key) by {
            if i > 0 {
                assert(entries[i] == behind[i - 1]);
            }
        }
    }
}

// ---------------------------------------------------------------------------
// When a policy is taken
// ---------------------------------------------------------------------------

/// The configured roots can be searched exactly where their patterns can be read.
pub proof fn law_roots_can_be_searched(roots: Seq<RootView>)
    ensures
        call_roots(roots) is Ok <==> forall|i: int|
            0 <= i < roots.len() ==> glob_set((#[trigger] roots[i]).deny) is Ok && glob_set(
                roots[i].allow,
            ) is Ok,
    decreases roots.len(),
{
    if roots.len() > 0 {
        let before = roots.drop_last();
        law_roots_can_be_searched(before);
        assert(roots[roots.len() - 1] == roots.last());
        if forall|i: int|
            0 <= i < before.len() ==> glob_set((#[trigger] before[i]).deny) is Ok && glob_set(
                before[i].allow,
            ) is Ok {
            assert forall|i: int| 0 <= i < roots.len() - 1 implies glob_set(
                (#[trigger] roots[i]).deny,
            ) is Ok && glob_set(roots[i].allow) is Ok by {
                assert(before[i] == roots[i]);
            }
        } else {
            let i = choose|i: int|
                0 <= i < before.len() && !(glob_set((#[trigger] before[i]).deny) is Ok && glob_set(
                    before[i].allow,
                ) is Ok);
            assert(roots[i] == before[i]);
        }
    }
}

/// Whether an entry of a policy can be read: a list for the lists, a number for the
/// limits.
pub open spec fn can_be_read(
    item: EntryView,
    roots: Result<Seq<RootInputView>, Seq<char>>,
) -> bool {
    ||| item.key == "roots"@ && roots is Ok
    ||| (item.key == "allow"@ || item.key == "deny"@ || item.key == "languages"@ || item.key
        == "deny_languages"@) && list_of(item.value, item.key) is Ok
    ||| (item.key == "max_results"@ || item.key == "max_bytes"@) && as_unsigned(
        Some(item.value),
    ) is Some && as_unsigned(Some(item.value))->0 <= usize::MAX
}

/// A policy is taken exactly where each of its entries can be read.
pub proof fn law_policy_is_taken(entries: Seq<EntryView>, roots: Result<Seq<RootInputView>, Seq<char>>)
    ensures
        policy_of(JsonView::Object(entries), roots) is Ok <==> forall|i: int|
            0 <= i < entries.len() ==> can_be_read(#[trigger] entries[i], roots),
{
    let start = PolicyView { roots: Seq::empty(), settings: crate::policy::no_settings() };
    lemma_policy_taken(start, entries, roots);
}

/// A policy is taken on where each entry that is left can be read.
proof fn lemma_policy_taken(
    policy: PolicyView,
    entries: Seq<EntryView>,
    roots: Result<Seq<RootInputView>, Seq<char>>,
)
    ensures
        policy_entries(policy, entries, roots) is Ok <==> forall|i: int|
            0 <= i < entries.len() ==> can_be_read(#[trigger] entries[i], roots),
    decreases entries.len(),
{
    lemma_keys();
    if entries.len() > 0 {
        let first = entries[0];
        let behind = entries.drop_first();
        assert(policy_entry(policy, first.key, first.value, roots) is Ok <==> can_be_read(
            first,
            roots,
        ));
        if can_be_read(first, roots) {
            let next = policy_entry(policy, first.key, first.value, roots)->Ok_0;
            lemma_policy_taken(next, behind, roots);
            if forall|i: int| 0 <= i < behind.len() ==> can_be_read(#[trigger] behind[i], roots) {
                assert forall|i: int| 0 <= i < entries.len() implies can_be_read(
                    #[trigger] entries[i],
                    roots,
                ) by {
                    if i > 0 {
                        assert(entries[i] == behind[i - 1]);
                    }
                }
            } else {
                let i = choose|i: int|
                    0 <= i < behind.len() && !can_be_read(#[trigger] behind[i], roots);
                assert(entries[i + 1] == behind[i]);
            }
        }
    }
}

// ---------------------------------------------------------------------------
// What a policy keeps from a call
// ---------------------------------------------------------------------------

/// Whether nothing that a policy says of a root keeps a path below it from a call.
pub open spec fn policy_lets_pass(
    roots: Seq<CallRootView>,
    inputs: Seq<RootInputView>,
    cwd: Seq<char>,
    at: int,
    rest: Seq<char>,
) -> bool {
    forall|k: int|
        0 <= k < inputs.len() && speaks_of(roots, #[trigger] inputs[k], cwd, at) ==> {
            &&& inputs[k].blocked != Some(true)
            &&& rest.len() == 0 || (!hit(inputs[k].deny, rest) && lets_pass(inputs[k].allow, rest))
        }
}

/// Nothing is found that a policy keeps from a call: what is found lies under a
/// configured root whose own patterns let it pass, which the policy does not block and
/// of which the policy says nothing that stands against it.
pub proof fn law_policy_keeps_from_call(
    config: ConfigView,
    meta: JsonView,
    inputs: Result<Seq<RootInputView>, Seq<char>>,
    cwd: Seq<char>,
    found: ResultView,
)
    requires
        call_config(config, meta, inputs, cwd) is Ok,
        field(meta, "policy"@) is Some,
        call_config(config, meta, inputs, cwd)->Ok_0.roots.len() > 0,
        passes(found, call_filter(call_config(config, meta, inputs, cwd)->Ok_0)),
    ensures
        ({
            let seen = call_roots(config.roots)->Ok_0;
            let said = policy_of(field(meta, "policy"@)->0, inputs)->Ok_0.roots;
            let path = found.chunk.path;
            exists|i: int|
                0 <= i < config.roots.len() && under(path, (#[trigger] config.roots[i]).path) && ({
                    let rest = below(path, config.roots[i].path);
                    &&& policy_lets_pass(seen, said, cwd, i, rest)
                    &&& rest.len() == 0 || (!hit(config.roots[i].deny, rest) && lets_pass(
                        config.roots[i].allow,
                        rest,
                    ))
                })
        }),
{
    let call = call_config(config, meta, inputs, cwd)->Ok_0;
    let seen = call_roots(config.roots)->Ok_0;
    let said = policy_of(field(meta, "policy"@)->0, inputs)->Ok_0.roots;
    let path = found.chunk.path;
    law_call_roots(config, meta, inputs, cwd);
    law_call_may_find(found, call);
    let left = policy_roots(seen, said, cwd)->Ok_0;
    let open = |root: CallRootView| !root.blocked;
    let at = choose|at: int| #[trigger]
        lies_in(call.roots, path, at) && {
            let rest = below(path, call.roots[at].path);
            rest.len() == 0 || (root_lets_pass(call.roots[at], rest) && !hit(
                call.settings.deny_globs,
                rest,
            ) && lets_pass(call.settings.allow_globs, rest))
        };
    let root = call.roots[at];
    assert(left.filter(open).contains(root));
    lemma_filtered(left, open, root);
    let i = choose|i: int| 0 <= i < left.len() && left[i] == root;
    let rest = below(path, root.path);
    law_policy_on_roots(seen, said, cwd, 0, rest);
    law_policy_on_roots(seen, said, cwd, i, rest);
    law_root_admits(seen[i], rest);
    law_root_admits(root, rest);
    assert(seen[i].path == config.roots[i].path);
    assert(policy_lets_pass(seen, said, cwd, i, rest));
}

/// What is left of a list was in it, and is what is kept.
proof fn lemma_filtered(
    roots: Seq<CallRootView>,
    kept: spec_fn(CallRootView) -> bool,
    root: CallRootView,
)
    ensures
        roots.filter(kept).contains(root) ==> roots.contains(root) && kept(root),
    decreases roots.len(),
{
    reveal(Seq::filter);
    if roots.len() > 0 {
        let before = roots.drop_last();
        lemma_filtered(before, kept, root);
        assert(roots[roots.len() - 1] == roots.last());
        if roots.filter(kept).contains(root) {
            let all = roots.filter(kept);
            let k = choose|k: int| 0 <= k < all.len() && all[k] == root;
            let init = before.filter(kept);
            if k < init.len() {
                assert(init[k] == root);
                assert(init.contains(root));
                let m = choose|m: int| 0 <= m < before.len() && before[m] == root;
                assert(roots[m] == root);
            }
        }
    }
}

} // verus!
