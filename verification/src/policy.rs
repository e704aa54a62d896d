//! What a call may search: the configured roots, narrowed by the policy that
//! comes with the call.
use crate::config::{
    list_of, parse_string_list, parse_usize_value, usize_of, Config, ConfigView, RootConfig,
    RootInput, RootInputView, RootView,
};
pub use crate::globs::build_glob_set;
use crate::globs::{admits, glob_set, set_view};
use crate::json::{entries_view, field, get, lemma_object_view, EntryView, Json, JsonView};
use crate::paths::{components, normalize_root_path, root_path, same_path};
use crate::sorting::views;
use crate::text::{clone_texts, concat, same_text, text_lists, texts};
use vstd::prelude::*;

verus! {

/// What a call may search, and how much of it it gets.
#[derive(Clone, Debug)]
pub struct CallConfig {
    pub roots: Vec<CallRoot>,
    pub allow_globs: Vec<String>,
    pub deny_globs: Vec<String>,
    pub allow_languages: Vec<String>,
    pub deny_languages: Vec<String>,
    pub max_results: Option<usize>,
    pub max_bytes: Option<usize>,
}

/// A root as a call sees it. What it holds has to match its own patterns and those
/// of each entry of the policy that speaks of it.
#[derive(Clone, Debug)]
pub struct CallRoot {
    pub path: String,
    pub path_canon: String,
    pub default: bool,
    pub blocked: bool,
    pub deny: Vec<String>,
    pub allow: Vec<String>,
    pub policy_allow: Vec<Vec<String>>,
    pub deny_set: Option<globset::GlobSet>,
    pub allow_set: Option<globset::GlobSet>,
}

/// What a policy says besides its roots.
#[derive(Clone, Debug)]
pub struct PolicySettings {
    pub allow_globs: Vec<String>,
    pub deny_globs: Vec<String>,
    pub allow_languages: Vec<String>,
    pub deny_languages: Vec<String>,
    pub max_results: Option<usize>,
    pub max_bytes: Option<usize>,
}

/// What a call may search, as a mathematical value.
#[verifier::ext_equal]
pub struct CallView {
    pub roots: Seq<CallRootView>,
    pub settings: SettingsView,
}

/// A root as a call sees it, as a mathematical value.
#[verifier::ext_equal]
pub struct CallRootView {
    pub path: Seq<char>,
    pub path_canon: Seq<char>,
    pub default: bool,
    pub blocked: bool,
    pub deny: Seq<Seq<char>>,
    pub allow: Seq<Seq<char>>,
    pub policy_allow: Seq<Seq<Seq<char>>>,
    pub deny_set: Option<Seq<Seq<char>>>,
    pub allow_set: Option<Seq<Seq<char>>>,
}

/// What a policy says besides its roots, as a mathematical value.
#[verifier::ext_equal]
pub struct SettingsView {
    pub allow_globs: Seq<Seq<char>>,
    pub deny_globs: Seq<Seq<char>>,
    pub allow_languages: Seq<Seq<char>>,
    pub deny_languages: Seq<Seq<char>>,
    pub max_results: Option<int>,
    pub max_bytes: Option<int>,
}

/// An optional number as a mathematical value.
pub open spec fn limit_view(limit: Option<usize>) -> Option<int> {
    match limit {
        Some(limit) => Some(limit as int),
        None => None,
    }
}

impl View for CallConfig {
    type V = CallView;

    open spec fn view(&self) -> CallView {
        CallView {
            roots: views(self.roots@),
            settings: SettingsView {
                allow_globs: texts(self.allow_globs@),
                deny_globs: texts(self.deny_globs@),
                allow_languages: texts(self.allow_languages@),
                deny_languages: texts(self.deny_languages@),
                max_results: limit_view(self.max_results),
                max_bytes: limit_view(self.max_bytes),
            },
        }
    }
}

impl View for CallRoot {
    type V = CallRootView;

    open spec fn view(&self) -> CallRootView {
        CallRootView {
            path: self.path@,
            path_canon: self.path_canon@,
            default: self.default,
            blocked: self.blocked,
            deny: texts(self.deny@),
            allow: texts(self.allow@),
            policy_allow: text_lists(self.policy_allow@),
            deny_set: set_view(self.deny_set),
            allow_set: set_view(self.allow_set),
        }
    }
}

impl View for PolicySettings {
    type V = SettingsView;

    open spec fn view(&self) -> SettingsView {
        SettingsView {
            allow_globs: texts(self.allow_globs@),
            deny_globs: texts(self.deny_globs@),
            allow_languages: texts(self.allow_languages@),
            deny_languages: texts(self.deny_languages@),
            max_results: limit_view(self.max_results),
            max_bytes: limit_view(self.max_bytes),
        }
    }
}

// ---------------------------------------------------------------------------
// Roots without a policy
// ---------------------------------------------------------------------------

/// A configured root as a call sees it. Its patterns have to be readable.
pub open spec fn call_root(root: RootView) -> Result<CallRootView, Seq<char>> {
    match (glob_set(root.deny), glob_set(root.allow)) {
        (Err(message), _) => Err(message),
        (_, Err(message)) => Err(message),
        (Ok(deny_set), Ok(allow_set)) => Ok(
            CallRootView {
                path: root.path,
                path_canon: root.path_canon,
                default: root.default,
                blocked: false,
                deny: root.deny,
                allow: root.allow,
                policy_allow: Seq::empty(),
                deny_set,
                allow_set,
            },
        ),
    }
}

/// The configured roots as a call sees them.
pub open spec fn call_roots(roots: Seq<RootView>) -> Result<Seq<CallRootView>, Seq<char>>
    decreases roots.len(),
{
    if roots.len() == 0 {
        Ok(Seq::empty())
    } else {
        match (call_roots(roots.drop_last()), call_root(roots.last())) {
            (Err(message), _) => Err(message),
            (_, Err(message)) => Err(message),
            (Ok(init), Ok(last)) => Ok(init.push(last)),
        }
    }
}

/// A configured root as a call sees it.
pub fn build_call_root(root: &RootConfig) -> (out: Result<CallRoot, String>)
    ensures
        crate::config::result_view(out) == call_root(root@),
{
    let deny_set = match build_glob_set(&root.deny) {
        Ok(set) => set,
        Err(message) => {
            return Err(message);
        },
    };
    let allow_set = match build_glob_set(&root.allow) {
        Ok(set) => set,
        Err(message) => {
            return Err(message);
        },
    };
    let policy_allow: Vec<Vec<String>> = Vec::new();
    assert(text_lists(policy_allow@) =~= Seq::<Seq<Seq<char>>>::empty());
    Ok(
        CallRoot {
            path: root.path.clone(),
            path_canon: root.path_canon.clone(),
            default: root.default,
            blocked: false,
            deny: clone_texts(&root.deny),
            allow: clone_texts(&root.allow),
            policy_allow,
            deny_set,
            allow_set,
        },
    )
}

/// A failure with the first roots is a failure with all of them.
proof fn lemma_call_roots_err(roots: Seq<RootView>, fewer: int)
    requires
        0 <= fewer <= roots.len(),
        call_roots(roots.take(fewer)) is Err,
    ensures
        call_roots(roots) == call_roots(roots.take(fewer)),
    decreases roots.len() - fewer,
{
    if fewer < roots.len() {
        assert(roots.take(fewer + 1).drop_last() =~= roots.take(fewer));
        lemma_call_roots_err(roots, fewer + 1);
    } else {
        assert(roots.take(fewer) =~= roots);
    }
}

/// The configured roots as a call sees them.
fn build_call_roots(roots: &Vec<RootConfig>) -> (out: Result<Vec<CallRoot>, String>)
    ensures
        match out {
            Ok(out) => call_roots(views(roots@)) == Ok::<Seq<CallRootView>, Seq<char>>(views(out@)),
            Err(message) => call_roots(views(roots@)) == Err::<Seq<CallRootView>, Seq<char>>(
                message@,
            ),
        },
{
    let ghost all = views(roots@);
    let mut out: Vec<CallRoot> = Vec::new();
    let mut i: usize = 0;
    assert(views(out@) =~= Seq::<CallRootView>::empty());
    while i < roots.len()
        invariant
            i <= roots@.len(),
            all == views(roots@),
            call_roots(all.take(i as int)) == Ok::<Seq<CallRootView>, Seq<char>>(views(out@)),
        decreases roots@.len() - i,
    {
        proof {
            assert(all.take(i + 1).drop_last() =~= all.take(i as int));
            assert(all[i as int] == roots@[i as int]@);
        }
        match build_call_root(&roots[i]) {
            Ok(root) => {
                assert(views(out@.push(root)) =~= views(out@).push(root@));
                out.push(root);
            },
            Err(message) => {
                proof {
                    lemma_call_roots_err(all, i + 1);
                }
                return Err(message);
            },
        }
        i = i + 1;
    }
    assert(all.take(i as int) =~= all);
    Ok(out)
}

// ---------------------------------------------------------------------------
// The settings of a policy
// ---------------------------------------------------------------------------

/// What a policy says: its roots and its settings.
#[verifier::ext_equal]
pub struct PolicyView {
    pub roots: Seq<RootInputView>,
    pub settings: SettingsView,
}

/// A policy that says nothing.
pub open spec fn no_settings() -> SettingsView {
    SettingsView {
        allow_globs: Seq::empty(),
        deny_globs: Seq::empty(),
        allow_languages: Seq::empty(),
        deny_languages: Seq::empty(),
        max_results: None,
        max_bytes: None,
    }
}

/// A policy after one more of its entries.
pub open spec fn policy_entry(
    policy: PolicyView,
    key: Seq<char>,
    value: JsonView,
    roots: Result<Seq<RootInputView>, Seq<char>>,
) -> Result<PolicyView, Seq<char>> {
    let settings = policy.settings;
    if key == "roots"@ {
        match roots {
            Err(message) => Err("invalid policy roots: "@ + message),
            Ok(roots) => Ok(PolicyView { roots, ..policy }),
        }
    } else if key == "allow"@ {
        match list_of(value, key) {
            Err(message) => Err(message),
            Ok(list) => Ok(
                PolicyView { settings: SettingsView { allow_globs: list, ..settings }, ..policy },
            ),
        }
    } else if key == "deny"@ {
        match list_of(value, key) {
            Err(message) => Err(message),
            Ok(list) => Ok(
                PolicyView { settings: SettingsView { deny_globs: list, ..settings }, ..policy },
            ),
        }
    } else if key == "languages"@ {
        match list_of(value, key) {
            Err(message) => Err(message),
            Ok(list) => Ok(
                PolicyView {
                    settings: SettingsView { allow_languages: list, ..settings },
                    ..policy
                },
            ),
        }
    } else if key == "deny_languages"@ {
        match list_of(value, key) {
            Err(message) => Err(message),
            Ok(list) => Ok(
                PolicyView {
                    settings: SettingsView { deny_languages: list, ..settings },
                    ..policy
                },
            ),
        }
    } else if key == "max_results"@ {
        match usize_of(value, key) {
            Err(message) => Err(message),
            Ok(number) => Ok(
                PolicyView {
                    settings: SettingsView { max_results: Some(number), ..settings },
                    ..policy
                },
            ),
        }
    } else if key == "max_bytes"@ {
        match usize_of(value, key) {
            Err(message) => Err(message),
            Ok(number) => Ok(
                PolicyView {
                    settings: SettingsView { max_bytes: Some(number), ..settings },
                    ..policy
                },
            ),
        }
    } else {
        Err("unknown policy key: "@ + key)
    }
}

/// A policy after more of its entries; the first that cannot be read ends it.
pub open spec fn policy_entries(
    policy: PolicyView,
    entries: Seq<EntryView>,
    roots: Result<Seq<RootInputView>, Seq<char>>,
) -> Result<PolicyView, Seq<char>>
    decreases entries.len(),
{
    if entries.len() == 0 {
        Ok(policy)
    } else {
        match policy_entry(policy, entries[0].key, entries[0].value, roots) {
            Err(message) => Err(message),
            Ok(next) => policy_entries(next, entries.drop_first(), roots),
        }
    }
}

/// What the value of a policy says. `roots` is what its roots are read as.
pub open spec fn policy_of(
    value: JsonView,
    roots: Result<Seq<RootInputView>, Seq<char>>,
) -> Result<PolicyView, Seq<char>> {
    match value {
        JsonView::Object(entries) => policy_entries(
            PolicyView { roots: Seq::empty(), settings: no_settings() },
            entries,
            roots,
        ),
        _ => Err("policy must be an object"@),
    }
}

/// What is read as the roots of a policy, as a mathematical value.
pub open spec fn inputs_view(roots: Result<Vec<RootInput>, String>) -> Result<
    Seq<RootInputView>,
    Seq<char>,
> {
    match roots {
        Ok(roots) => Ok(views(roots@)),
        Err(message) => Err(message@),
    }
}

/// A policy with one more of its entries: whether its roots are given, and its
/// settings.
fn read_policy_entry(
    given: bool,
    settings: PolicySettings,
    key: &str,
    value: &Json,
    roots: &Result<Vec<RootInput>, String>,
) -> (out: Result<(bool, PolicySettings), String>)
    requires
        given ==> roots is Ok,
    ensures
        match out {
            Ok(out) => {
                &&& out.0 ==> roots is Ok
                &&& policy_entry(
                    PolicyView { roots: given_roots(given, *roots), settings: settings@ },
                    key@,
                    value@,
                    inputs_view(*roots),
                ) == Ok::<PolicyView, Seq<char>>(
                    PolicyView { roots: given_roots(out.0, *roots), settings: out.1@ },
                )
            },
            Err(message) => policy_entry(
                PolicyView { roots: given_roots(given, *roots), settings: settings@ },
                key@,
                value@,
                inputs_view(*roots),
            ) == Err::<PolicyView, Seq<char>>(message@),
        },
{
    if same_text(key, "roots") {
        match roots {
            Ok(_) => Ok((true, settings)),
            Err(message) => Err(concat("invalid policy roots: ", message.as_str())),
        }
    } else if same_text(key, "allow") {
        match parse_string_list(value, key) {
            Ok(list) => Ok((given, PolicySettings { allow_globs: list, ..settings })),
            Err(message) => Err(message),
        }
    } else if same_text(key, "deny") {
        match parse_string_list(value, key) {
            Ok(list) => Ok((given, PolicySettings { deny_globs: list, ..settings })),
            Err(message) => Err(message),
        }
    } else if same_text(key, "languages") {
        match parse_string_list(value, key) {
            Ok(list) => Ok((given, PolicySettings { allow_languages: list, ..settings })),
            Err(message) => Err(message),
        }
    } else if same_text(key, "deny_languages") {
        match parse_string_list(value, key) {
            Ok(list) => Ok((given, PolicySettings { deny_languages: list, ..settings })),
            Err(message) => Err(message),
        }
    } else if same_text(key, "max_results") {
        match parse_usize_value(value, key) {
            Ok(number) => Ok((given, PolicySettings { max_results: Some(number), ..settings })),
            Err(message) => Err(message),
        }
    } else if same_text(key, "max_bytes") {
        match parse_usize_value(value, key) {
            Ok(number) => Ok((given, PolicySettings { max_bytes: Some(number), ..settings })),
            Err(message) => Err(message),
        }
    } else {
        Err(concat("unknown policy key: ", key))
    }
}

/// The roots of a policy, if they are given.
pub open spec fn given_roots(given: bool, roots: Result<Vec<RootInput>, String>) -> Seq<
    RootInputView,
> {
    match roots {
        Ok(roots) => if given {
            views(roots@)
        } else {
            Seq::empty()
        },
        Err(_) => Seq::empty(),
    }
}

/// Reads a policy: whether its roots are given, and its settings.
fn read_policy(value: &Json, roots: &Result<Vec<RootInput>, String>) -> (out: Result<
    (bool, PolicySettings),
    String,
>)
    ensures
        match out {
            Ok(out) => {
                &&& out.0 ==> roots is Ok
                &&& policy_of(value@, inputs_view(*roots)) == Ok::<PolicyView, Seq<char>>(
                    PolicyView { roots: given_roots(out.0, *roots), settings: out.1@ },
                )
            },
            Err(message) => policy_of(value@, inputs_view(*roots)) == Err::<PolicyView, Seq<char>>(
                message@,
            ),
        },
{
    match value {
        Json::Object(entries) => {
            let ghost all = entries_view(entries@);
            proof {
                lemma_object_view(*entries);
            }
            let mut given = false;
            let mut settings = PolicySettings {
                allow_globs: Vec::new(),
                deny_globs: Vec::new(),
                allow_languages: Vec::new(),
                deny_languages: Vec::new(),
                max_results: None,
                max_bytes: None,
            };
            let mut i: usize = 0;
            proof {
                assert(settings@ =~~= no_settings());
                assert(all.skip(0) =~= all);
            }
            while i < entries.len()
                invariant
                    i <= entries@.len(),
                    all == entries_view(entries@),
                    given ==> roots is Ok,
                    policy_of(value@, inputs_view(*roots)) == policy_entries(
                        PolicyView { roots: given_roots(given, *roots), settings: settings@ },
                        all.skip(i as int),
                        inputs_view(*roots),
                    ),
                decreases entries@.len() - i,
            {
                proof {
                    assert(all.skip(i as int)[0] == all[i as int]);
                    assert(all.skip(i as int).drop_first() =~= all.skip(i + 1));
                }
                match read_policy_entry(
                    given,
                    settings,
                    entries[i].key.as_str(),
                    &entries[i].value,
                    roots,
                ) {
                    Ok(next) => {
                        given = next.0;
                        settings = next.1;
                    },
                    Err(message) => {
                        return Err(message);
                    },
                }
                i = i + 1;
            }
            Ok((given, settings))
        },
        _ => Err("policy must be an object".to_owned()),
    }
}

// ---------------------------------------------------------------------------
// The roots of a policy
// ---------------------------------------------------------------------------

/// Whether a root is the one that a path names.
pub open spec fn names_root(root: CallRootView, path: Seq<char>) -> bool {
    components(root.path_canon) == components(path) || components(root.path) == components(path)
}

/// The position of the first root that a path names, or the number of roots.
pub open spec fn named_root(roots: Seq<CallRootView>, path: Seq<char>) -> int
    decreases roots.len(),
{
    if roots.len() == 0 || names_root(roots[0], path) {
        0
    } else {
        1 + named_root(roots.drop_first(), path)
    }
}

/// The lists of patterns of which each has to match what a root holds: its own and
/// those of the policy.
pub open spec fn allow_lists(root: CallRootView) -> Seq<Seq<Seq<char>>> {
    Seq::empty().push(root.allow) + root.policy_allow
}

/// Whether a root lets a path below it pass.
pub open spec fn root_admits(root: CallRootView, rest: Seq<char>) -> bool {
    admits(allow_lists(root), root.deny, rest)
}

/// A root narrowed by what a policy says of it: it may be blocked, unless it is
/// the default, get more patterns that deny, and get one more list of patterns
/// that has to match.
pub open spec fn narrowed(root: CallRootView, input: RootInputView) -> Result<
    CallRootView,
    Seq<char>,
> {
    let deny = root.deny + input.deny;
    if input.blocked == Some(true) && root.default {
        Err("policy cannot block the default root"@)
    } else {
        match (
            if input.deny.len() > 0 {
                glob_set(deny)
            } else {
                Ok(root.deny_set)
            },
            glob_set(input.allow),
        ) {
            (Err(message), _) => Err(message),
            (_, Err(message)) => Err(message),
            (Ok(deny_set), Ok(_)) => Ok(
                CallRootView {
                    blocked: root.blocked || input.blocked == Some(true),
                    deny,
                    policy_allow: if input.allow.len() > 0 {
                        root.policy_allow.push(input.allow)
                    } else {
                        root.policy_allow
                    },
                    deny_set,
                    ..root
                },
            ),
        }
    }
}

/// The roots after what a policy says of one of them.
pub open spec fn policy_root(
    roots: Seq<CallRootView>,
    input: RootInputView,
    cwd: Seq<char>,
) -> Result<Seq<CallRootView>, Seq<char>> {
    let at = named_root(roots, root_path(input.path, cwd));
    if input.default is Some {
        Err("policy roots must not include default"@)
    } else if at >= roots.len() {
        Err("policy root not found: "@ + input.path)
    } else {
        match narrowed(roots[at], input) {
            Err(message) => Err(message),
            Ok(root) => Ok(roots.update(at, root)),
        }
    }
}

/// The roots after what a policy says of them, one after the other.
pub open spec fn policy_roots(
    roots: Seq<CallRootView>,
    inputs: Seq<RootInputView>,
    cwd: Seq<char>,
) -> Result<Seq<CallRootView>, Seq<char>>
    decreases inputs.len(),
{
    if inputs.len() == 0 {
        Ok(roots)
    } else {
        match policy_root(roots, inputs[0], cwd) {
            Err(message) => Err(message),
            Ok(next) => policy_roots(next, inputs.drop_first(), cwd),
        }
    }
}

/// Finds the first root that a path names.
fn find_root(roots: &Vec<CallRoot>, path: &str) -> (at: Option<usize>)
    ensures
        match at {
            Some(at) => at < roots@.len() && named_root(views(roots@), path@) == at,
            None => named_root(views(roots@), path@) == roots@.len(),
        },
{
    let ghost all = views(roots@);
    let mut i: usize = 0;
    assert(all.skip(0) =~= all);
    while i < roots.len()
        invariant
            i <= roots@.len(),
            all == views(roots@),
            named_root(all, path@) == i + named_root(all.skip(i as int), path@),
        decreases roots@.len() - i,
    {
        proof {
            assert(all.skip(i as int)[0] == roots@[i as int]@);
            assert(all.skip(i as int).drop_first() =~= all.skip(i + 1));
        }
        if same_path(roots[i].path_canon.as_str(), path) || same_path(
            roots[i].path.as_str(),
            path,
        ) {
            return Some(i);
        }
        i = i + 1;
    }
    None
}

/// Texts behind other texts.
fn append_texts(list: &Vec<String>, more: &Vec<String>) -> (all: Vec<String>)
    ensures
        texts(all@) == texts(list@) + texts(more@),
{
    let mut all = clone_texts(list);
    let mut extra = clone_texts(more);
    all.append(&mut extra);
    assert(texts(all@) =~= texts(list@) + texts(more@));
    all
}

/// Narrows a root by what a policy says of it.
fn narrow(root: CallRoot, input: &RootInput) -> (out: Result<CallRoot, String>)
    ensures
        crate::config::result_view(out) == narrowed(root@, input@),
{
    let mut root = root;
    let blocked = match input.blocked {
        Some(flag) => flag,
        None => false,
    };
    if blocked {
        if root.default {
            return Err("policy cannot block the default root".to_owned());
        }
        root.blocked = true;
    }
    let ghost before = root@;
    assert(texts(input.deny@).len() == input.deny@.len());
    assert(texts(input.allow@).len() == input.allow@.len());
    if input.deny.len() > 0 {
        root.deny = append_texts(&root.deny, &input.deny);
        match build_glob_set(&root.deny) {
            Ok(set) => {
                root.deny_set = set;
            },
            Err(message) => {
                return Err(message);
            },
        }
    } else {
        assert(before.deny + input@.deny =~= before.deny);
    }
    if input.allow.len() > 0 {
        match build_glob_set(&input.allow) {
            Ok(_) => {
                let list = clone_texts(&input.allow);
                assert(text_lists(root.policy_allow@.push(list)) =~= text_lists(
                    root.policy_allow@,
                ).push(texts(list@)));
                root.policy_allow.push(list);
            },
            Err(message) => {
                return Err(message);
            },
        }
    }
    Ok(root)
}

/// Narrows the root that a policy speaks of.
fn apply_policy_root(roots: Vec<CallRoot>, input: &RootInput, cwd: &str) -> (out: Result<
    Vec<CallRoot>,
    String,
>)
    ensures
        match out {
            Ok(out) => policy_root(views(roots@), input@, cwd@) == Ok::<
                Seq<CallRootView>,
                Seq<char>,
            >(views(out@)),
            Err(message) => policy_root(views(roots@), input@, cwd@) == Err::<
                Seq<CallRootView>,
                Seq<char>,
            >(message@),
        },
{
    let ghost all = views(roots@);
    if input.default.is_some() {
        return Err("policy roots must not include default".to_owned());
    }
    let path = normalize_root_path(input.path.as_str(), cwd);
    match find_root(&roots, path.as_str()) {
        None => Err(concat("policy root not found: ", input.path.as_str())),
        Some(at) => {
            let mut roots = roots;
            let root = roots.remove(at);
            assert(all[at as int] == root@);
            match narrow(root, input) {
                Ok(next) => {
                    roots.insert(at, next);
                    assert(views(roots@) =~= all.update(at as int, next@));
                    Ok(roots)
                },
                Err(message) => Err(message),
            }
        },
    }
}

/// The roots and the settings that a policy leaves.
pub open spec fn under_policy(
    roots: Seq<CallRootView>,
    value: JsonView,
    inputs: Result<Seq<RootInputView>, Seq<char>>,
    cwd: Seq<char>,
) -> Result<(Seq<CallRootView>, SettingsView), Seq<char>> {
    match policy_of(value, inputs) {
        Err(message) => Err(message),
        Ok(policy) => match policy_roots(roots, policy.roots, cwd) {
            Err(message) => Err(message),
            Ok(roots) => Ok((roots, policy.settings)),
        },
    }
}

/// Applies a policy to the roots of a call. `inputs` is what the roots of the
/// policy are read as, or why they cannot be read.
pub fn apply_policy_to_roots(
    roots: Vec<CallRoot>,
    policy: &Json,
    inputs: &Result<Vec<RootInput>, String>,
    cwd: &str,
) -> (out: Result<(Vec<CallRoot>, PolicySettings), String>)
    ensures
        match out {
            Ok(out) => under_policy(views(roots@), policy@, inputs_view(*inputs), cwd@) == Ok::<
                (Seq<CallRootView>, SettingsView),
                Seq<char>,
            >((views(out.0@), out.1@)),
            Err(message) => under_policy(views(roots@), policy@, inputs_view(*inputs), cwd@)
                == Err::<(Seq<CallRootView>, SettingsView), Seq<char>>(message@),
        },
{
    let read = match read_policy(policy, inputs) {
        Ok(read) => read,
        Err(message) => {
            return Err(message);
        },
    };
    let ghost start = views(roots@);
    let ghost asked = given_roots(read.0, *inputs);
    let mut next = roots;
    if read.0 {
        match inputs {
            Ok(list) => {
                let mut i: usize = 0;
                assert(asked.skip(0) =~= asked);
                while i < list.len()
                    invariant
                        i <= list@.len(),
                        asked == views(list@),
                        policy_roots(start, asked, cwd@) == policy_roots(
                            views(next@),
                            asked.skip(i as int),
                            cwd@,
                        ),
                        policy_of(policy@, inputs_view(*inputs)) == Ok::<PolicyView, Seq<char>>(
                            PolicyView { roots: asked, settings: read.1@ },
                        ),
                        start == views(roots@),
                    decreases list@.len() - i,
                {
                    proof {
                        assert(asked.skip(i as int)[0] == list@[i as int]@);
                        assert(asked.skip(i as int).drop_first() =~= asked.skip(i + 1));
                    }
                    match apply_policy_root(next, &list[i], cwd) {
                        Ok(narrowed) => {
                            next = narrowed;
                        },
                        Err(message) => {
                            return Err(message);
                        },
                    }
                    i = i + 1;
                }
                assert(asked.skip(i as int).len() == 0);
            },
            Err(_) => {},
        }
    }
    Ok((next, read.1))
}

// ---------------------------------------------------------------------------
// The configuration of a call
// ---------------------------------------------------------------------------

/// The roots that are not blocked.
pub open spec fn open_roots(roots: Seq<CallRootView>) -> Seq<CallRootView>
    decreases roots.len(),
{
    if roots.len() == 0 {
        roots
    } else if roots.last().blocked {
        open_roots(roots.drop_last())
    } else {
        open_roots(roots.drop_last()).push(roots.last())
    }
}

/// What a call may search: all roots where it brings no policy, else what its
/// policy leaves.
pub open spec fn call_config(
    config: ConfigView,
    meta: JsonView,
    inputs: Result<Seq<RootInputView>, Seq<char>>,
    cwd: Seq<char>,
) -> Result<CallView, Seq<char>> {
    match call_roots(config.roots) {
        Err(message) => Err(message),
        Ok(roots) => match field(meta, "policy"@) {
            None => Ok(CallView { roots, settings: no_settings() }),
            Some(policy) => match under_policy(roots, policy, inputs, cwd) {
                Err(message) => Err(message),
                Ok(left) => Ok(CallView { roots: open_roots(left.0), settings: left.1 }),
            },
        },
    }
}

/// Keeps the roots that are not blocked.
fn drop_blocked(roots: Vec<CallRoot>) -> (out: Vec<CallRoot>)
    ensures
        views(out@) == open_roots(views(roots@)),
{
    let ghost all = views(roots@);
    let mut rest = roots;
    let mut reversed: Vec<CallRoot> = Vec::new();
    while rest.len() > 0
        invariant
            all.len() == rest@.len() + reversed@.len(),
            forall|k: int| 0 <= k < rest@.len() ==> all[k] == (#[trigger] rest@[k])@,
            forall|k: int|
                0 <= k < reversed@.len() ==> all[all.len() - 1 - k] == (#[trigger] reversed@[k])@,
        decreases rest@.len(),
    {
        match rest.pop() {
            Some(root) => {
                reversed.push(root);
            },
            None => {},
        }
    }
    let mut out: Vec<CallRoot> = Vec::new();
    assert(views(out@) =~= open_roots(all.take(0)));
    while reversed.len() > 0
        invariant
            reversed@.len() <= all.len(),
            forall|k: int|
                0 <= k < reversed@.len() ==> all[all.len() - 1 - k] == (#[trigger] reversed@[k])@,
            views(out@) == open_roots(all.take(all.len() - reversed@.len())),
        decreases reversed@.len(),
    {
        let ghost done = all.len() - reversed@.len();
        match reversed.pop() {
            Some(root) => {
                proof {
                    assert(root@ == all[done]);
                    assert(all.take(done + 1).drop_last() =~= all.take(done));
                }
                if !root.blocked {
                    assert(views(out@.push(root)) =~= views(out@).push(root@));
                    out.push(root);
                }
            },
            None => {},
        }
    }
    assert(all.take(all.len() as int) =~= all);
    out
}

/// What a call may search. `meta` is what comes with the call, `inputs` is what
/// the roots of its policy are read as, and `cwd` is the working directory where
/// it is known; the default root stands for it where it is not.
pub fn resolve_call_config(
    config: &Config,
    meta: &Json,
    inputs: &Result<Vec<RootInput>, String>,
    cwd: &Option<String>,
) -> (out: Result<CallConfig, String>)
    ensures
        crate::config::result_view(out) == call_config(
            config@,
            meta@,
            inputs_view(*inputs),
            match *cwd {
                Some(cwd) => cwd@,
                None => config@.default_root,
            },
        ),
{
    let roots = match build_call_roots(&config.roots) {
        Ok(roots) => roots,
        Err(message) => {
            return Err(message);
        },
    };
    match get(meta, "policy") {
        None => {
            let out = CallConfig {
                roots,
                allow_globs: Vec::new(),
                deny_globs: Vec::new(),
                allow_languages: Vec::new(),
                deny_languages: Vec::new(),
                max_results: None,
                max_bytes: None,
            };
            assert(out@.settings =~~= no_settings());
            Ok(out)
        },
        Some(policy) => {
            let place: String = match cwd {
                Some(cwd) => cwd.clone(),
                None => config.default_root.clone(),
            };
            match apply_policy_to_roots(roots, policy, inputs, place.as_str()) {
                Err(message) => Err(message),
                Ok(left) => Ok(
                    CallConfig {
                        roots: drop_blocked(left.0),
                        allow_globs: left.1.allow_globs,
                        deny_globs: left.1.deny_globs,
                        allow_languages: left.1.allow_languages,
                        deny_languages: left.1.deny_languages,
                        max_results: left.1.max_results,
                        max_bytes: left.1.max_bytes,
                    },
                ),
            }
        },
    }
}

} // verus!
